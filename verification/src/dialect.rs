//! The dialect contract: lexical primitives that differ between MySQL and
//! PostgreSQL.  This crate defines its own simplified rules — identifiers
//! are a run of word bytes or a quoted span, strings are quoted with the
//! quote doubled or a byte escaped by a backslash, byte arrays are written
//! `E'\x…'` in hex, bit vectors `B'…'` in binary digits — and both render
//! paths and grammar share them.

use vstd::prelude::*;
use crate::lexical::{is_digit, is_ident_byte, spec_tag_nc, tag_nc, QUOTE, DQUOTE, BACKTICK, BACKSLASH};

verus! {

/// The SQL flavor whose lexical rules parameterize the shared grammar.
#[derive(Clone, Copy, Debug, PartialEq, Eq, Hash, Structural)]
pub enum Dialect {
    MySQL,
    PostgreSQL,
}

/// End of the run of identifier bytes that starts at `pos`.
pub open spec fn ident_end(s: Seq<u8>, pos: int) -> int
    decreases s.len() - pos,
{
    if 0 <= pos < s.len() && is_ident_byte(s[pos]) {
        ident_end(s, pos + 1)
    } else {
        pos
    }
}

pub proof fn lemma_ident_end(s: Seq<u8>, pos: int)
    requires
        0 <= pos <= s.len(),
    ensures
        pos <= ident_end(s, pos) <= s.len(),
        forall|q: int| pos <= q < ident_end(s, pos) ==> is_ident_byte(s[q]),
        ident_end(s, pos) < s.len() ==> !is_ident_byte(s[ident_end(s, pos)]),
    decreases s.len() - pos,
{
    if pos < s.len() && is_ident_byte(s[pos]) {
        lemma_ident_end(s, pos + 1);
    }
}

/// First position at or after `pos` holding byte `b`.
pub open spec fn find_byte(s: Seq<u8>, pos: int, b: u8) -> Option<int>
    decreases s.len() - pos,
{
    if pos < 0 || pos >= s.len() {
        None
    } else if s[pos] == b {
        Some(pos)
    } else {
        find_byte(s, pos + 1, b)
    }
}

pub proof fn lemma_find_byte(s: Seq<u8>, pos: int, b: u8)
    requires
        0 <= pos <= s.len(),
    ensures
        match find_byte(s, pos, b) {
            Some(q) => pos <= q < s.len() && s[q] == b && (forall|t: int|
                pos <= t < q ==> s[t] != b),
            None => forall|t: int| pos <= t < s.len() ==> s[t] != b,
        },
    decreases s.len() - pos,
{
    if pos < s.len() && s[pos] != b {
        lemma_find_byte(s, pos + 1, b);
    }
}

pub fn find_byte_exec(i: &[u8], pos: usize, b: u8) -> (r: Option<usize>)
    requires
        pos <= i@.len(),
    ensures
        match r {
            Some(q) => Some(q as int) == find_byte(i@, pos as int, b) && pos <= q < i@.len(),
            None => find_byte(i@, pos as int, b) is None,
        },
{
    let mut p = pos;
    while p < i.len() && i[p] != b
        invariant
            pos <= p <= i@.len(),
            find_byte(i@, pos as int, b) == find_byte(i@, p as int, b),
        decreases i@.len() - p,
    {
        p += 1;
    }
    if p < i.len() {
        Some(p)
    } else {
        None
    }
}

/// Every byte of `s` is ASCII.
pub open spec fn ascii_bytes(s: Seq<u8>) -> bool {
    forall|j: int| 0 <= j < s.len() ==> s[j] < 0x80
}

/// A sequence of ASCII bytes is valid UTF-8.
pub proof fn lemma_ascii_valid(s: Seq<u8>)
    requires
        ascii_bytes(s),
    ensures
        vstd::utf8::valid_utf8(s),
        vstd::utf8::decode_utf8(s) == Seq::new(s.len(), |j: int| s[j] as char),
    decreases s.len(),
{
    if s.len() > 0 {
        let b0 = s[0];
        assert(vstd::utf8::is_leading_byte_width_1(b0)) by (bit_vector)
            requires
                b0 < 0x80,
        ;
        assert(vstd::utf8::codepoint_width_1(b0) == b0 as u32) by (bit_vector)
            requires
                b0 < 0x80,
        ;
        assert(vstd::utf8::pop_first_scalar(s) =~= s.subrange(1, s.len() as int));
        lemma_ascii_valid(s.subrange(1, s.len() as int));
        assert(vstd::utf8::decode_utf8(s) =~= Seq::new(s.len(), |j: int| s[j] as char));
    } else {
        assert(vstd::utf8::decode_utf8(s) =~= Seq::new(s.len(), |j: int| s[j] as char));
    }
}

/// Relies on `String::from_utf8`: it returns the text whose UTF-8 encoding
/// the bytes are, and fails exactly on bytes that are not such an encoding.
#[verifier::external_body]
pub fn bytes_to_string(v: &Vec<u8>) -> (r: Option<String>)
    ensures
        match r {
            Some(s) => vstd::utf8::valid_utf8(v@) && s@ == vstd::utf8::decode_utf8(v@),
            None => !vstd::utf8::valid_utf8(v@),
        },
{
    String::from_utf8(v.clone()).ok()
}

/// Turns bytes already known to be valid UTF-8 into the text they encode.
pub fn string_from_valid(v: Vec<u8>) -> (r: String)
    requires
        vstd::utf8::valid_utf8(v@),
    ensures
        r@ == vstd::utf8::decode_utf8(v@),
{
    let ghost bytes = v@;
    match bytes_to_string(&v) {
        Some(s) => s,
        None => {
            proof {
                assert(false);
            }
            String::new()
        },
    }
}

/// An identifier at `pos`: a quoted span (backticks for MySQL, double
/// quotes for PostgreSQL), or a run of word bytes; the result is its text.
pub open spec fn spec_identifier(d: Dialect, s: Seq<u8>, pos: int) -> Option<(int, Seq<char>)> {
    let q: u8 = if d == Dialect::MySQL {
        BACKTICK
    } else {
        DQUOTE
    };
    if pos < s.len() && s[pos] == q {
        match find_byte(s, pos + 1, q) {
            Some(e) => {
                let inner = s.subrange(pos + 1, e);
                if inner.len() > 0 && vstd::utf8::valid_utf8(inner) {
                    Some((e + 1, vstd::utf8::decode_utf8(inner)))
                } else {
                    None
                }
            },
            None => None,
        }
    } else {
        let e = ident_end(s, pos);
        if e > pos {
            Some((e, Seq::new((e - pos) as nat, |j: int| s[pos + j] as char)))
        } else {
            None
        }
    }
}

pub fn identifier(d: Dialect, i: &[u8], pos: usize) -> (r: Option<(usize, String)>)
    requires
        pos <= i@.len(),
    ensures
        match r {
            Some((p2, v)) => spec_identifier(d, i@, pos as int) == Some((p2 as int, v@)) && pos
                < p2 <= i@.len(),
            None => spec_identifier(d, i@, pos as int) is None,
        },
{
    let q: u8 = if matches!(d, Dialect::MySQL) {
        BACKTICK
    } else {
        DQUOTE
    };
    if pos < i.len() && i[pos] == q {
        match find_byte_exec(i, pos + 1, q) {
            Some(e) => {
                if e == pos + 1 {
                    return None;
                }
                let mut inner: Vec<u8> = Vec::new();
                let mut k = pos + 1;
                while k < e
                    invariant
                        pos + 1 <= k <= e <= i@.len(),
                        inner@ == i@.subrange(pos + 1, k as int),
                    decreases e - k,
                {
                    inner.push(i[k]);
                    proof {
                        assert(inner@ =~= i@.subrange(pos + 1, k + 1));
                    }
                    k += 1;
                }
                match bytes_to_string(&inner) {
                    Some(s) => Some((e + 1, s)),
                    None => None,
                }
            },
            None => None,
        }
    } else {
        let e = exec_ident_end(i, pos);
        if e > pos {
            let mut inner: Vec<u8> = Vec::new();
            let mut k = pos;
            while k < e
                invariant
                    pos <= k <= e <= i@.len(),
                    inner@ == i@.subrange(pos as int, k as int),
                decreases e - k,
            {
                inner.push(i[k]);
                proof {
                    assert(inner@ =~= i@.subrange(pos as int, k + 1));
                }
                k += 1;
            }
            proof {
                lemma_ident_end(i@, pos as int);
                assert forall|j: int| 0 <= j < inner@.len() implies inner@[j] < 0x80 by {
                    assert(is_ident_byte(i@[pos + j]));
                }
                lemma_ascii_valid(inner@);
                assert(vstd::utf8::decode_utf8(inner@) =~= Seq::new(
                    (e - pos) as nat,
                    |j: int| i@[pos + j] as char,
                ));
            }
            let s = string_from_valid(inner);
            Some((e, s))
        } else {
            None
        }
    }
}

fn exec_ident_end(i: &[u8], pos: usize) -> (r: usize)
    requires
        pos <= i@.len(),
    ensures
        r as int == ident_end(i@, pos as int),
        pos <= r <= i@.len(),
{
    let mut p = pos;
    while p < i.len() && (0x61 <= i[p] && i[p] <= 0x7a || 0x41 <= i[p] && i[p] <= 0x5a || 0x30
        <= i[p] && i[p] <= 0x39 || i[p] == 0x5f)
        invariant
            pos <= p <= i@.len(),
            ident_end(i@, pos as int) == ident_end(i@, p as int),
        decreases i@.len() - p,
    {
        p += 1;
    }
    p
}

/// A function name: a bare run of word bytes.
pub open spec fn spec_function_identifier(s: Seq<u8>, pos: int) -> Option<(int, Seq<char>)> {
    let e = ident_end(s, pos);
    if e > pos {
        Some((e, Seq::new((e - pos) as nat, |j: int| s[pos + j] as char)))
    } else {
        None
    }
}

pub fn function_identifier(i: &[u8], pos: usize) -> (r: Option<(usize, String)>)
    requires
        pos <= i@.len(),
    ensures
        match r {
            Some((p2, v)) => spec_function_identifier(i@, pos as int) == Some((p2 as int, v@))
                && pos < p2 <= i@.len(),
            None => spec_function_identifier(i@, pos as int) is None,
        },
{
    let e = exec_ident_end(i, pos);
    if e > pos {
        let mut inner: Vec<u8> = Vec::new();
        let mut k = pos;
        while k < e
            invariant
                pos <= k <= e <= i@.len(),
                inner@ == i@.subrange(pos as int, k as int),
            decreases e - k,
        {
            inner.push(i[k]);
            proof {
                assert(inner@ =~= i@.subrange(pos as int, k + 1));
            }
            k += 1;
        }
        proof {
            lemma_ident_end(i@, pos as int);
            assert forall|j: int| 0 <= j < inner@.len() implies inner@[j] < 0x80 by {
                assert(is_ident_byte(i@[pos + j]));
            }
            lemma_ascii_valid(inner@);
            assert(vstd::utf8::decode_utf8(inner@) =~= Seq::new(
                (e - pos) as nat,
                |j: int| i@[pos + j] as char,
            ));
        }
        let s = string_from_valid(inner);
        Some((e, s))
    } else {
        None
    }
}

/// The body of a quoted string after its opening quote `q`: a doubled `q`
/// stands for one `q`, a backslash takes the next byte as it is, a single
/// `q` closes; the result is the unescaped bytes and the position after
/// the closing quote.  A missing closing quote fails.
pub open spec fn spec_quoted_body(s: Seq<u8>, pos: int, q: u8) -> Option<(int, Seq<u8>)>
    decreases s.len() - pos,
{
    if pos < 0 || pos >= s.len() {
        None
    } else if s[pos] == q {
        if pos + 1 < s.len() && s[pos + 1] == q {
            match spec_quoted_body(s, pos + 2, q) {
                Some((e, b)) => Some((e, seq![q] + b)),
                None => None,
            }
        } else {
            Some((pos + 1, seq![]))
        }
    } else if s[pos] == BACKSLASH {
        if pos + 1 < s.len() {
            match spec_quoted_body(s, pos + 2, q) {
                Some((e, b)) => Some((e, seq![s[pos + 1]] + b)),
                None => None,
            }
        } else {
            None
        }
    } else {
        match spec_quoted_body(s, pos + 1, q) {
            Some((e, b)) => Some((e, seq![s[pos]] + b)),
            None => None,
        }
    }
}

pub fn quoted_body(i: &[u8], pos: usize, q: u8) -> (r: Option<(usize, Vec<u8>)>)
    requires
        pos <= i@.len(),
    ensures
        match r {
            Some((p2, v)) => spec_quoted_body(i@, pos as int, q) == Some((p2 as int, v@)) && pos
                < p2 <= i@.len(),
            None => spec_quoted_body(i@, pos as int, q) is None,
        },
{
    let ilen = i.len();
    let mut out: Vec<u8> = Vec::new();
    let mut p = pos;
    loop
        invariant
            ilen == i@.len(),
            pos <= p <= i@.len(),
            i@.len() <= usize::MAX,
            spec_quoted_body(i@, pos as int, q) == (match spec_quoted_body(i@, p as int, q) {
                Some((e, b)) => Some((e, out@ + b)),
                None => None::<(int, Seq<u8>)>,
            }),
        decreases i@.len() - p,
    {
        if p >= i.len() {
            return None;
        }
        let b = i[p];
        if b == q {
            if p + 1 < i.len() && i[p + 1] == q {
                out.push(q);
                p = p + 2;
                proof {
                    assert(forall|x: Seq<u8>, y: u8| (x.push(y)) =~= x + seq![y]);
                    assert(forall|x: Seq<u8>, y: u8, z: Seq<u8>|
                        (x + seq![y]) + z =~= x + (seq![y] + z));
                }
            } else {
                proof {
                    assert(out@ + seq![] =~= out@);
                }
                return Some((p + 1, out));
            }
        } else if b == BACKSLASH {
            if p + 1 < i.len() {
                out.push(i[p + 1]);
                p = p + 2;
                proof {
                    assert(forall|x: Seq<u8>, y: u8| (x.push(y)) =~= x + seq![y]);
                    assert(forall|x: Seq<u8>, y: u8, z: Seq<u8>|
                        (x + seq![y]) + z =~= x + (seq![y] + z));
                }
            } else {
                return None;
            }
        } else {
            out.push(b);
            p = p + 1;
            proof {
                assert(forall|x: Seq<u8>, y: u8| (x.push(y)) =~= x + seq![y]);
                assert(forall|x: Seq<u8>, y: u8, z: Seq<u8>|
                    (x + seq![y]) + z =~= x + (seq![y] + z));
            }
        }
    }
}

/// A string literal: single-quoted in both dialects, double-quoted also
/// accepted under MySQL; the value is the unescaped raw bytes.
pub open spec fn spec_string_literal(d: Dialect, s: Seq<u8>, pos: int) -> Option<(int, Seq<u8>)> {
    if pos < s.len() && s[pos] == QUOTE {
        spec_quoted_body(s, pos + 1, QUOTE)
    } else if d == Dialect::MySQL && pos < s.len() && s[pos] == DQUOTE {
        spec_quoted_body(s, pos + 1, DQUOTE)
    } else {
        None
    }
}

pub fn string_literal(d: Dialect, i: &[u8], pos: usize) -> (r: Option<(usize, Vec<u8>)>)
    requires
        pos <= i@.len(),
    ensures
        match r {
            Some((p2, v)) => spec_string_literal(d, i@, pos as int) == Some((p2 as int, v@))
                && pos < p2 <= i@.len(),
            None => spec_string_literal(d, i@, pos as int) is None,
        },
{
    if pos < i.len() && i[pos] == QUOTE {
        quoted_body(i, pos + 1, QUOTE)
    } else if matches!(d, Dialect::MySQL) && pos < i.len() && i[pos] == DQUOTE {
        quoted_body(i, pos + 1, DQUOTE)
    } else {
        None
    }
}

pub open spec fn is_hex(b: u8) -> bool {
    is_digit(b) || (0x61 <= b && b <= 0x66) || (0x41 <= b && b <= 0x46)
}

pub open spec fn hex_val(b: u8) -> u8 {
    if is_digit(b) {
        (b - 0x30) as u8
    } else if 0x61 <= b && b <= 0x66 {
        (b - 0x61 + 10) as u8
    } else if 0x41 <= b && b <= 0x46 {
        (b - 0x41 + 10) as u8
    } else {
        0
    }
}

/// End of the run of hex digits that starts at `pos`.
pub open spec fn hex_end(s: Seq<u8>, pos: int) -> int
    decreases s.len() - pos,
{
    if 0 <= pos < s.len() && is_hex(s[pos]) {
        hex_end(s, pos + 1)
    } else {
        pos
    }
}

pub proof fn lemma_hex_end(s: Seq<u8>, pos: int)
    requires
        0 <= pos <= s.len(),
    ensures
        pos <= hex_end(s, pos) <= s.len(),
        forall|q: int| pos <= q < hex_end(s, pos) ==> is_hex(s[q]),
        hex_end(s, pos) < s.len() ==> !is_hex(s[hex_end(s, pos)]),
    decreases s.len() - pos,
{
    if pos < s.len() && is_hex(s[pos]) {
        lemma_hex_end(s, pos + 1);
    }
}

/// The bytes written by a run of hex digit pairs, first pair first.
pub open spec fn hex_pairs(h: Seq<u8>) -> Seq<u8>
    decreases h.len(),
{
    if h.len() < 2 {
        seq![]
    } else {
        seq![(hex_val(h[0]) * 16 + hex_val(h[1])) as u8] + hex_pairs(h.subrange(2, h.len() as int))
    }
}

/// A byte-array literal `E'\x…'` with an even run of hex digits.
pub open spec fn spec_bytes_literal(s: Seq<u8>, pos: int) -> Option<(int, Seq<u8>)> {
    match spec_tag_nc(s, pos, "e'\\x"@) {
        Some(p1) => {
            let e = hex_end(s, p1);
            if e < s.len() && s[e] == QUOTE && (e - p1) % 2 == 0 {
                Some((e + 1, hex_pairs(s.subrange(p1, e))))
            } else {
                None
            }
        },
        None => None,
    }
}

pub fn bytes_literal(i: &[u8], pos: usize) -> (r: Option<(usize, Vec<u8>)>)
    requires
        pos <= i@.len(),
    ensures
        match r {
            Some((p2, v)) => spec_bytes_literal(i@, pos as int) == Some((p2 as int, v@)) && pos
                < p2 <= i@.len(),
            None => spec_bytes_literal(i@, pos as int) is None,
        },
{
    let p1 = match tag_nc(i, pos, "e'\\x") {
        Some(p) => p,
        None => {
            return None;
        },
    };
    proof {
        lemma_hex_end(i@, p1 as int);
    }
    let mut e = p1;
    while e < i.len() && (0x30 <= i[e] && i[e] <= 0x39 || 0x61 <= i[e] && i[e] <= 0x66 || 0x41
        <= i[e] && i[e] <= 0x46)
        invariant
            p1 <= e <= i@.len(),
            hex_end(i@, p1 as int) == hex_end(i@, e as int),
        decreases i@.len() - e,
    {
        e += 1;
    }
    if !(e < i.len() && i[e] == QUOTE && (e - p1) % 2 == 0) {
        return None;
    }
    let mut out: Vec<u8> = Vec::new();
    let mut k = p1;
    proof {
        lemma_hex_end(i@, p1 as int);
    }
    while k < e
        invariant
            p1 <= k <= e <= i@.len(),
            i@.len() <= usize::MAX,
            (e - p1) % 2 == 0,
            (k - p1) % 2 == 0,
            forall|q: int| p1 <= q < e ==> is_hex(i@[q]),
            hex_pairs(i@.subrange(p1 as int, e as int)) == out@ + hex_pairs(
                i@.subrange(k as int, e as int),
            ),
        decreases e - k,
    {
        proof {
            assert((e - k) % 2 == 0) by {
                assert(e - k == (e - p1) - (k - p1));
            }
            assert(k + 2 <= e);
        }
        let hi = i[k];
        let lo = i[k + 1];
        let hv = hex_byte_val(hi);
        let lv = hex_byte_val(lo);
        out.push(hv * 16 + lv);
        proof {
            let tail = i@.subrange(k as int, e as int);
            assert(tail[0] == i@[k as int]);
            assert(tail[1] == i@[k + 1]);
            assert(tail.subrange(2, tail.len() as int) =~= i@.subrange(k + 2, e as int));
            assert(forall|x: Seq<u8>, y: u8, z: Seq<u8>| (x.push(y)) + z =~= x + (seq![y] + z));
        }
        k += 2;
    }
    proof {
        assert(i@.subrange(k as int, e as int).len() == 0);
        assert(out@ + hex_pairs(i@.subrange(k as int, e as int)) =~= out@);
    }
    Some((e + 1, out))
}

fn hex_byte_val(b: u8) -> (r: u8)
    requires
        is_hex(b),
    ensures
        r == hex_val(b),
        r < 16,
{
    if 0x30 <= b && b <= 0x39 {
        b - 0x30
    } else if 0x61 <= b && b <= 0x66 {
        b - 0x61 + 10
    } else {
        b - 0x41 + 10
    }
}

/// A bit-vector literal `B'…'` over binary digits.
pub open spec fn spec_bitvec_literal(s: Seq<u8>, pos: int) -> Option<(int, Seq<bool>)> {
    match spec_tag_nc(s, pos, "b'"@) {
        Some(p1) => {
            match find_byte(s, p1, QUOTE) {
                Some(e) => {
                    if forall|q: int| p1 <= q < e ==> s[q] == 0x30 || s[q] == 0x31 {
                        Some((e + 1, Seq::new((e - p1) as nat, |j: int| s[p1 + j] == 0x31)))
                    } else {
                        None
                    }
                },
                None => None,
            }
        },
        None => None,
    }
}

pub fn bitvec_literal(i: &[u8], pos: usize) -> (r: Option<(usize, Vec<bool>)>)
    requires
        pos <= i@.len(),
    ensures
        match r {
            Some((p2, v)) => spec_bitvec_literal(i@, pos as int) == Some((p2 as int, v@)) && pos
                < p2 <= i@.len(),
            None => spec_bitvec_literal(i@, pos as int) is None,
        },
{
    let ilen = i.len();
    let p1 = match tag_nc(i, pos, "b'") {
        Some(p) => p,
        None => {
            return None;
        },
    };
    let e = match find_byte_exec(i, p1, QUOTE) {
        Some(e) => e,
        None => {
            return None;
        },
    };
    proof {
        lemma_find_byte(i@, p1 as int, QUOTE);
    }
    let mut out: Vec<bool> = Vec::new();
    let mut k = p1;
    while k < e
        invariant
            p1 <= k <= e <= i@.len(),
            i@.len() <= usize::MAX,
            pos <= i@.len(),
            spec_tag_nc(i@, pos as int, "b'"@) == Some(p1 as int),
            find_byte(i@, p1 as int, QUOTE) == Some(e as int),
            forall|q: int| p1 <= q < k ==> i@[q] == 0x30 || i@[q] == 0x31,
            out@ == Seq::new((k - p1) as nat, |j: int| i@[p1 + j] == 0x31),
        decreases e - k,
    {
        let b = i[k];
        if b == 0x31 {
            out.push(true);
        } else if b == 0x30 {
            out.push(false);
        } else {
            proof {
                assert(p1 <= k < e);
                assert(!(i@[k as int] == 0x30 || i@[k as int] == 0x31));
                assert(!(forall|q: int| p1 <= q < e ==> i@[q] == 0x30 || i@[q] == 0x31));
                assert(spec_tag_nc(i@, pos as int, "b'"@) == Some(p1 as int));
                assert(find_byte(i@, p1 as int, QUOTE) == Some(e as int));
                assert(spec_bitvec_literal(i@, pos as int) is None);
            }
            return None;
        }
        k += 1;
        proof {
            assert(out@ =~= Seq::new((k - p1) as nat, |j: int| i@[p1 + j] == 0x31));
        }
    }
    Some((e + 1, out))
}

/// The escaped form of one byte inside a quoted string: the quote and the
/// backslash double themselves.
pub open spec fn esc1(b: u8) -> Seq<u8> {
    if b == QUOTE || b == BACKSLASH {
        seq![b, b]
    } else {
        seq![b]
    }
}

/// The escaped form of a byte string.
pub open spec fn escape_bytes(s: Seq<u8>) -> Seq<u8>
    decreases s.len(),
{
    if s.len() == 0 {
        seq![]
    } else {
        esc1(s[0]) + escape_bytes(s.drop_first())
    }
}

pub proof fn lemma_escape_concat(a: Seq<u8>, b: Seq<u8>)
    ensures
        escape_bytes(a + b) == escape_bytes(a) + escape_bytes(b),
    decreases a.len(),
{
    if a.len() == 0 {
        assert(a + b =~= b);
        assert(escape_bytes(a) + escape_bytes(b) =~= escape_bytes(b));
    } else {
        lemma_escape_concat(a.drop_first(), b);
        assert((a + b).drop_first() =~= a.drop_first() + b);
        assert((a + b)[0] == a[0]);
        assert(esc1(a[0]) + (escape_bytes(a.drop_first()) + escape_bytes(b)) =~= (esc1(a[0])
            + escape_bytes(a.drop_first())) + escape_bytes(b));
    }
}

/// Appends the escaped form of `src` to `out`.
pub fn push_escaped(out: &mut Vec<u8>, src: &[u8])
    ensures
        final(out)@ == old(out)@ + escape_bytes(src@),
{
    let mut k: usize = 0;
    proof {
        assert(src@.take(0) =~= Seq::<u8>::empty());
        assert(out@ + escape_bytes(src@.take(0)) =~= out@);
    }
    while k < src.len()
        invariant
            k <= src@.len(),
            out@ == old(out)@ + escape_bytes(src@.take(k as int)),
        decreases src@.len() - k,
    {
        let b = src[k];
        proof {
            assert(src@.take(k + 1) =~= src@.take(k as int) + seq![src@[k as int]]);
            lemma_escape_concat(src@.take(k as int), seq![src@[k as int]]);
            assert(seq![src@[k as int]].drop_first() =~= Seq::<u8>::empty());
            assert(escape_bytes(Seq::<u8>::empty()) =~= Seq::<u8>::empty());
            assert(escape_bytes(seq![src@[k as int]]) =~= esc1(src@[k as int]));
        }
        if b == QUOTE || b == BACKSLASH {
            out.push(b);
            out.push(b);
            proof {
                assert(out@ =~= old(out)@ + escape_bytes(src@.take(k + 1)));
            }
        } else {
            out.push(b);
            proof {
                assert(out@ =~= old(out)@ + escape_bytes(src@.take(k + 1)));
            }
        }
        k += 1;
    }
    proof {
        assert(src@.take(src@.len() as int) =~= src@);
    }
}

/// Escaping a valid UTF-8 byte string leaves it valid: the doubled bytes
/// are ASCII, and the bytes of a longer scalar encoding are never doubled.
pub proof fn lemma_escape_valid(s: Seq<u8>)
    requires
        vstd::utf8::valid_utf8(s),
    ensures
        vstd::utf8::valid_utf8(escape_bytes(s)),
    decreases s.len(),
{
    broadcast use vstd::utf8::valid_utf8_concat;

    if s.len() > 0 {
        let w = vstd::utf8::length_of_first_scalar(s);
        let head = vstd::utf8::take_first_scalar(s);
        let tail = vstd::utf8::pop_first_scalar(s);
        assert(1 <= w <= 4);
        assert(w <= s.len()) by {
            assert(vstd::utf8::valid_first_scalar(s));
        }
        assert(head + tail =~= s);
        lemma_escape_concat(head, tail);
        lemma_escape_valid(tail);
        if w == 1 {
            assert(head =~= seq![s[0]]);
            assert(head.drop_first() =~= Seq::<u8>::empty());
            if s[0] == QUOTE || s[0] == BACKSLASH {
                assert(escape_bytes(Seq::<u8>::empty()) =~= Seq::<u8>::empty());
                assert(escape_bytes(head) =~= seq![s[0], s[0]]);
                assert(s[0] < 0x80);
                assert(ascii_bytes(escape_bytes(head)));
                lemma_ascii_valid(escape_bytes(head));
            } else {
                assert(escape_bytes(Seq::<u8>::empty()) =~= Seq::<u8>::empty());
                assert(escape_bytes(head) =~= head);
                lemma_first_scalar_valid_alone(s);
            }
        } else {
            // Every byte of a multi-byte encoding is at least 0x80, so
            // none is doubled.
            assert(forall|j: int| 0 <= j < head.len() ==> head[j] == s[j]);
            assert(vstd::utf8::valid_first_scalar(s));
            lemma_multibyte_high(s, w);
            lemma_escape_high_id(head);
            lemma_first_scalar_valid_alone(s);
        }
        assert(escape_bytes(s) == escape_bytes(head) + escape_bytes(tail));
    }
}

/// The first scalar's bytes are a valid UTF-8 string on their own.
proof fn lemma_first_scalar_valid_alone(s: Seq<u8>)
    requires
        vstd::utf8::valid_utf8(s),
        s.len() > 0,
    ensures
        vstd::utf8::valid_utf8(vstd::utf8::take_first_scalar(s)),
{
    let head = vstd::utf8::take_first_scalar(s);
    let w = vstd::utf8::length_of_first_scalar(s);
    assert(vstd::utf8::valid_first_scalar(s));
    assert(w <= s.len()) by {
        let b0 = s[0];
        if vstd::utf8::is_leading_byte_width_1(b0) {
        } else if vstd::utf8::is_leading_byte_width_2(b0) {
            assert(!(s.len() >= 1 && vstd::utf8::is_leading_byte_width_1(s[0])));
        } else if vstd::utf8::is_leading_byte_width_3(b0) {
        } else {
        }
    }
    assert(head.len() == w);
    assert(forall|j: int| 0 <= j < w ==> head[j] == s[j]);
    assert(vstd::utf8::valid_first_scalar(head));
    assert(vstd::utf8::length_of_first_scalar(head) == w);
    assert(vstd::utf8::pop_first_scalar(head) =~= Seq::<u8>::empty());
    assert(vstd::utf8::valid_utf8(Seq::<u8>::empty()));
    assert(vstd::utf8::valid_utf8(head));
}

/// Bytes of a multi-byte scalar encoding are all 0x80 or above.
proof fn lemma_multibyte_high(s: Seq<u8>, w: int)
    requires
        vstd::utf8::valid_first_scalar(s),
        w == vstd::utf8::length_of_first_scalar(s),
        w >= 2,
    ensures
        forall|j: int| 0 <= j < w ==> s[j] >= 0x80,
{
    assert(!vstd::utf8::is_leading_byte_width_1(s[0]));
    assert(s[0] >= 0x80);
    if w == 2 {
        assert(vstd::utf8::is_continuation_byte(s[1]));
        assert(forall|j: int| 0 <= j < w ==> s[j] >= 0x80) by {
            assert(s[0] >= 0x80 && s[1] >= 0x80);
        }
    } else if w == 3 {
        assert(vstd::utf8::is_continuation_byte(s[1]));
        assert(vstd::utf8::is_continuation_byte(s[2]));
        assert(forall|j: int| 0 <= j < w ==> s[j] >= 0x80) by {
            assert(s[0] >= 0x80 && s[1] >= 0x80 && s[2] >= 0x80);
        }
    } else {
        assert(vstd::utf8::is_continuation_byte(s[1]));
        assert(vstd::utf8::is_continuation_byte(s[2]));
        assert(vstd::utf8::is_continuation_byte(s[3]));
        assert(forall|j: int| 0 <= j < w ==> s[j] >= 0x80) by {
            assert(s[0] >= 0x80 && s[1] >= 0x80 && s[2] >= 0x80 && s[3] >= 0x80);
        }
    }
}

/// Escaping changes nothing in a string of high bytes.
proof fn lemma_escape_high_id(s: Seq<u8>)
    requires
        forall|j: int| 0 <= j < s.len() ==> s[j] >= 0x80,
    ensures
        escape_bytes(s) == s,
    decreases s.len(),
{
    if s.len() > 0 {
        assert(forall|j: int| 0 <= j < s.drop_first().len() ==> s.drop_first()[j] >= 0x80);
        lemma_escape_high_id(s.drop_first());
        assert(s[0] != QUOTE && s[0] != BACKSLASH);
        assert(escape_bytes(s) =~= seq![s[0]] + s.drop_first());
        assert(seq![s[0]] + s.drop_first() =~= s);
    }
}

} // verus!
