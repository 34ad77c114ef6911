//! The SQL literal value model: every scalar constant form, its equality
//! by bit pattern for the floating variants, its canonical rendering, and
//! the dialect-parameterized literal grammar.

use vstd::prelude::*;
use crate::dialect::{ascii_bytes, bitvec_literal, bytes_literal, escape_bytes, lemma_ascii_valid, lemma_escape_valid, push_escaped, spec_bitvec_literal, spec_bytes_literal, spec_string_literal, string_from_valid, string_literal, Dialect};
use crate::ieee::{fixed_text, float_text, pow2, real_bits, spec_double_text, spec_fixed_text, spec_float_text, spec_real_bits, spec_trim_real, trim_zeros};
use crate::lexical::{byte_tag, copy_range, dec_digits, digit_end, is_digit, kw_bytes, lemma_dec_digits_are_digits, parse_uint, push_bytes, push_dec_u64, push_str_bytes, spec_byte, spec_tag_nc, spec_uint, tag_nc, D0, DOT, MINUS, QUOTE};

verus! {

/// A single-precision floating value as its IEEE-754 bit pattern, with the
/// number of fractional digits its text carried.  Equality and hashing go
/// by the bit pattern, so two equal-pattern not-a-numbers are equal.
#[derive(Clone, Copy, Debug, PartialEq, Eq, Hash, Structural)]
pub struct Float {
    pub bits: u32,
    pub precision: u8,
}

/// A double-precision floating value as its IEEE-754 bit pattern, with the
/// number of fractional digits its text carried.
#[derive(Clone, Copy, Debug, PartialEq, Eq, Hash, Structural)]
pub struct Double {
    pub bits: u64,
    pub precision: u8,
}

/// A parameter marker: positional, dollar-numbered, or colon-numbered.
#[derive(Clone, Copy, Debug, PartialEq, Eq, Hash, Structural)]
pub enum ItemPlaceholder {
    QuestionMark,
    DollarNumber(u32),
    ColonNumber(u32),
}

/// A SQL scalar literal.  `Blob` holds the raw bytes of a string literal
/// that is not valid text; `ByteArray` holds the bytes of an explicit
/// byte-array literal, kept apart so that no caller has to guess.
#[derive(Clone, Debug, PartialEq, Eq, Hash)]
pub enum Literal {
    Null,
    Boolean(bool),
    Integer(i64),
    Float(Float),
    Double(Double),
    Numeric(i128, u32),
    String(String),
    Blob(Vec<u8>),
    CurrentTime,
    CurrentDate,
    CurrentTimestamp,
    ByteArray(Vec<u8>),
    Placeholder(ItemPlaceholder),
    BitVector(Vec<u8>),
}

/// The mathematical shape of a literal: text as a character sequence and
/// byte payloads as byte sequences.
pub enum LiteralV {
    Null,
    Boolean(bool),
    Integer(i64),
    Float(Float),
    Double(Double),
    Numeric(i128, u32),
    Str(Seq<char>),
    Blob(Seq<u8>),
    CurrentTime,
    CurrentDate,
    CurrentTimestamp,
    ByteArray(Seq<u8>),
    Placeholder(ItemPlaceholder),
    BitVector(Seq<u8>),
}

impl View for Literal {
    type V = LiteralV;

    open spec fn view(&self) -> LiteralV {
        match self {
            Literal::Null => LiteralV::Null,
            Literal::Boolean(b) => LiteralV::Boolean(*b),
            Literal::Integer(i) => LiteralV::Integer(*i),
            Literal::Float(f) => LiteralV::Float(*f),
            Literal::Double(d) => LiteralV::Double(*d),
            Literal::Numeric(m, s) => LiteralV::Numeric(*m, *s),
            Literal::String(s) => LiteralV::Str(s@),
            Literal::Blob(b) => LiteralV::Blob(b@),
            Literal::CurrentTime => LiteralV::CurrentTime,
            Literal::CurrentDate => LiteralV::CurrentDate,
            Literal::CurrentTimestamp => LiteralV::CurrentTimestamp,
            Literal::ByteArray(b) => LiteralV::ByteArray(b@),
            Literal::Placeholder(p) => LiteralV::Placeholder(*p),
            Literal::BitVector(b) => LiteralV::BitVector(b@),
        }
    }
}

/// Bit `j` (most significant first) of a byte.
pub open spec fn byte_bit(b: u8, j: int) -> bool {
    ((b as int) / pow2((7 - j) as nat)) % 2 == 1
}

/// The bits of a byte string, each byte most significant bit first.
pub open spec fn spec_bits_of_bytes(b: Seq<u8>) -> Seq<bool> {
    Seq::new(b.len() * 8, |i: int| byte_bit(b[i / 8], i % 8))
}

/// The value of the eight bits packed into the byte at `k`; missing bits
/// at the end count as zero.
pub open spec fn bit_val(bits: Seq<bool>, i: int) -> int {
    if 0 <= i < bits.len() && bits[i] {
        1
    } else {
        0
    }
}

/// The bytes that pack a bit string, most significant bit first, the last
/// byte padded with zero bits.
pub open spec fn spec_bytes_of_bits(bits: Seq<bool>) -> Seq<u8> {
    Seq::new(
        (bits.len() + 7) / 8,
        |k: int| (128 * bit_val(bits, 8 * k) + 64 * bit_val(bits, 8 * k + 1) + 32 * bit_val(
            bits,
            8 * k + 2,
        ) + 16 * bit_val(bits, 8 * k + 3) + 8 * bit_val(bits, 8 * k + 4) + 4 * bit_val(
            bits,
            8 * k + 5,
        ) + 2 * bit_val(bits, 8 * k + 6) + bit_val(bits, 8 * k + 7)) as u8,
    )
}

/// Relies on `bit_vec::BitVec::from_bytes` and its iterator: the bits of
/// the given bytes in order, most significant bit of each byte first.
#[verifier::external_body]
pub fn bits_of_bytes(b: &Vec<u8>) -> (r: Vec<bool>)
    ensures
        r@ == spec_bits_of_bytes(b@),
{
    bit_vec::BitVec::from_bytes(b.as_slice()).iter().collect()
}

/// Relies on `bit_vec::BitVec::to_bytes`: the bits packed into bytes most
/// significant first, the last byte padded with zeros.
#[verifier::external_body]
pub fn bytes_of_bits(bits: Vec<bool>) -> (r: Vec<u8>)
    ensures
        r@ == spec_bytes_of_bits(bits@),
{
    bits.into_iter().collect::<bit_vec::BitVec>().to_bytes()
}

/// The text of a lone hex digit.
pub open spec fn hex_digit(n: int) -> u8 {
    if n < 10 {
        (D0 + n) as u8
    } else {
        (0x61 + n - 10) as u8
    }
}

/// A byte in the unpadded lowercase hex the blob forms use: one digit
/// below sixteen, two otherwise.
pub open spec fn hex_byte(b: u8) -> Seq<u8> {
    if b < 16 {
        seq![hex_digit(b as int)]
    } else {
        seq![hex_digit(b as int / 16), hex_digit(b as int % 16)]
    }
}

/// Blob text: unpadded hex bytes joined by single spaces.
pub open spec fn blob_bytes(b: Seq<u8>) -> Seq<u8>
    decreases b.len(),
{
    if b.len() == 0 {
        seq![]
    } else if b.len() == 1 {
        hex_byte(b[0])
    } else {
        hex_byte(b[0]) + seq![0x20u8] + blob_bytes(b.drop_first())
    }
}

/// Byte-array text body: unpadded hex bytes, no separator.
pub open spec fn hex_run(b: Seq<u8>) -> Seq<u8>
    decreases b.len(),
{
    if b.len() == 0 {
        seq![]
    } else {
        hex_byte(b[0]) + hex_run(b.drop_first())
    }
}

/// The text of a bit string: one `0` or `1` per bit.
pub open spec fn bits01(bits: Seq<bool>) -> Seq<u8> {
    Seq::new(bits.len(), |j: int| if bits[j] {
        0x31u8
    } else {
        0x30u8
    })
}

/// The decimal text of a signed 64-bit integer.
pub open spec fn int_bytes(i: i64) -> Seq<u8> {
    if i < 0 {
        seq![MINUS] + dec_digits((-(i as int)) as nat)
    } else {
        dec_digits(i as nat)
    }
}

/// The exact fixed-point text of a numeric value: sign, then the mantissa
/// split `scale` digits from the right.
pub open spec fn numeric_bytes(m: i128, scale: u32) -> Seq<u8> {
    let a: int = if m < 0 {
        -(m as int)
    } else {
        m as int
    };
    if m < 0 {
        seq![MINUS] + spec_fixed_text(a, scale as nat)
    } else {
        spec_fixed_text(a, scale as nat)
    }
}

/// The text of a placeholder in its written form.
pub open spec fn placeholder_bytes(p: ItemPlaceholder) -> Seq<u8> {
    match p {
        ItemPlaceholder::QuestionMark => seq![0x3fu8],
        ItemPlaceholder::DollarNumber(n) => seq![0x24u8] + dec_digits(n as nat),
        ItemPlaceholder::ColonNumber(n) => seq![0x3au8] + dec_digits(n as nat),
    }
}

/// Whether this crate can render the literal: only a numeric whose scale
/// exceeds twenty-eight digits is refused, the bound a fixed-point
/// decimal of ninety-six mantissa bits imposes.
pub open spec fn spec_renderable(l: LiteralV) -> bool {
    match l {
        LiteralV::Numeric(_, s) => s <= 28,
        _ => true,
    }
}

/// The canonical SQL text of a literal, as bytes.
pub open spec fn spec_literal_bytes(l: LiteralV) -> Seq<u8> {
    match l {
        LiteralV::Null => kw_bytes("NULL"@),
        LiteralV::Boolean(b) => if b {
            kw_bytes("TRUE"@)
        } else {
            kw_bytes("FALSE"@)
        },
        LiteralV::Integer(i) => int_bytes(i),
        LiteralV::Float(f) => spec_float_text(f.bits, f.precision),
        LiteralV::Double(d) => spec_double_text(d.bits, d.precision),
        LiteralV::Numeric(m, s) => numeric_bytes(m, s),
        LiteralV::Str(s) => seq![QUOTE] + escape_bytes(vstd::utf8::encode_utf8(s)) + seq![QUOTE],
        LiteralV::Blob(b) => blob_bytes(b),
        LiteralV::CurrentTime => kw_bytes("CURRENT_TIME"@),
        LiteralV::CurrentDate => kw_bytes("CURRENT_DATE"@),
        LiteralV::CurrentTimestamp => kw_bytes("CURRENT_TIMESTAMP"@),
        LiteralV::ByteArray(b) => kw_bytes("E'\\x"@) + hex_run(b) + seq![QUOTE],
        LiteralV::Placeholder(p) => placeholder_bytes(p),
        LiteralV::BitVector(b) => kw_bytes("B'"@) + bits01(spec_bits_of_bytes(b)) + seq![QUOTE],
    }
}

impl Literal {
    /// Whether `to_sql_text` accepts this literal.
    pub open spec fn renderable(&self) -> bool {
        spec_renderable(self@)
    }

    /// The canonical SQL text of this literal, as bytes.
    pub fn sql_bytes(&self) -> (r: Vec<u8>)
        requires
            self.renderable(),
        ensures
            r@ == spec_literal_bytes(self@),
    {
        let mut out: Vec<u8> = Vec::new();
        match self {
            Literal::Null => {
                proof {
                    reveal_strlit("NULL");
                    assert(vstd::string::is_ascii("NULL"));
                }
                push_str_bytes(&mut out, "NULL");
            },
            Literal::Boolean(b) => {
                if *b {
                    proof {
                        reveal_strlit("TRUE");
                        assert(vstd::string::is_ascii("TRUE"));
                    }
                    push_str_bytes(&mut out, "TRUE");
                } else {
                    proof {
                        reveal_strlit("FALSE");
                        assert(vstd::string::is_ascii("FALSE"));
                    }
                    push_str_bytes(&mut out, "FALSE");
                }
            },
            Literal::Integer(i) => {
                let mag: u64 = if *i < 0 {
                    (((-1 - *i) as u64) + 1)
                } else {
                    *i as u64
                };
                if *i < 0 {
                    out.push(0x2d);
                    proof {
                        assert(out@ =~= seq![MINUS]);
                    }
                }
                push_dec_u64(&mut out, mag);
            },
            Literal::Float(f) => {
                let t = float_text(f.bits, f.precision);
                push_bytes(&mut out, t.as_slice());
                proof {
                    assert(out@ =~= t@);
                }
            },
            Literal::Double(d) => {
                let t = crate::ieee::double_text(d.bits, d.precision);
                push_bytes(&mut out, t.as_slice());
                proof {
                    assert(out@ =~= t@);
                }
            },
            Literal::Numeric(m, s) => {
                let mag: u128 = if *m < 0 {
                    (((-1 - *m) as u128) + 1)
                } else {
                    *m as u128
                };
                if *m < 0 {
                    out.push(0x2d);
                    proof {
                        assert(out@ =~= seq![MINUS]);
                    }
                }
                let t = fixed_text(mag, *s as usize);
                push_bytes(&mut out, t.as_slice());
            },
            Literal::String(s) => {
                out.push(0x27);
                push_escaped(&mut out, s.as_str().as_bytes());
                out.push(0x27);
                proof {
                    broadcast use vstd::string::is_ascii_spec_bytes;

                    assert(out@ =~= seq![QUOTE] + escape_bytes(
                        vstd::utf8::encode_utf8(s@),
                    ) + seq![QUOTE]);
                }
            },
            Literal::Blob(b) => {
                push_blob_hex(&mut out, b);
            },
            Literal::CurrentTime => {
                proof {
                    reveal_strlit("CURRENT_TIME");
                    assert(vstd::string::is_ascii("CURRENT_TIME"));
                }
                push_str_bytes(&mut out, "CURRENT_TIME");
            },
            Literal::CurrentDate => {
                proof {
                    reveal_strlit("CURRENT_DATE");
                    assert(vstd::string::is_ascii("CURRENT_DATE"));
                }
                push_str_bytes(&mut out, "CURRENT_DATE");
            },
            Literal::CurrentTimestamp => {
                proof {
                    reveal_strlit("CURRENT_TIMESTAMP");
                    assert(vstd::string::is_ascii("CURRENT_TIMESTAMP"));
                }
                push_str_bytes(&mut out, "CURRENT_TIMESTAMP");
            },
            Literal::ByteArray(b) => {
                proof {
                    reveal_strlit("E'\\x");
                    assert(vstd::string::is_ascii("E'\\x"));
                }
                push_str_bytes(&mut out, "E'\\x");
                push_hex_run(&mut out, b);
                out.push(0x27);
                proof {
                    assert(out@ =~= kw_bytes("E'\\x"@) + hex_run(b@) + seq![QUOTE]);
                }
            },
            Literal::Placeholder(p) => {
                match p {
                    ItemPlaceholder::QuestionMark => {
                        out.push(0x3f);
                        proof {
                            assert(out@ =~= placeholder_bytes(*p));
                        }
                    },
                    ItemPlaceholder::DollarNumber(n) => {
                        out.push(0x24);
                        proof {
                            assert(out@ =~= seq![0x24u8]);
                        }
                        push_dec_u64(&mut out, *n as u64);
                    },
                    ItemPlaceholder::ColonNumber(n) => {
                        out.push(0x3a);
                        proof {
                            assert(out@ =~= seq![0x3au8]);
                        }
                        push_dec_u64(&mut out, *n as u64);
                    },
                }
            },
            Literal::BitVector(b) => {
                proof {
                    reveal_strlit("B'");
                    assert(vstd::string::is_ascii("B'"));
                }
                push_str_bytes(&mut out, "B'");
                let bits = bits_of_bytes(b);
                let ghost head = out@;
                let mut j: usize = 0;
                while j < bits.len()
                    invariant
                        j <= bits@.len(),
                        out@ == head + bits01(bits@.take(j as int)),
                    decreases bits@.len() - j,
                {
                    if bits[j] {
                        out.push(0x31);
                    } else {
                        out.push(0x30);
                    }
                    proof {
                        assert(out@ =~= head + bits01(bits@.take(j + 1)));
                    }
                    j += 1;
                }
                out.push(0x27);
                proof {
                    assert(bits@.take(bits@.len() as int) =~= bits@);
                    assert(out@ =~= kw_bytes("B'"@) + bits01(spec_bits_of_bytes(b@))
                        + seq![QUOTE]);
                }
            },
        }
        out
    }
}

/// Appends the space-joined unpadded hex of `b`.
fn push_blob_hex(out: &mut Vec<u8>, b: &Vec<u8>)
    ensures
        final(out)@ == old(out)@ + blob_bytes(b@),
{
    let mut k: usize = 0;
    proof {
        assert(blob_bytes(b@.skip(b@.len() as int)) =~= Seq::<u8>::empty());
    }
    if b.len() == 0 {
        proof {
            assert(blob_bytes(b@) =~= Seq::<u8>::empty());
            assert(final(out)@ =~= old(out)@ + blob_bytes(b@));
        }
        return ;
    }
    while k < b.len()
        invariant
            k <= b@.len(),
            b@.len() > 0,
            out@ == old(out)@ + spec_blob_prefix(b@, k as int),
        decreases b@.len() - k,
    {
        let byte = b[k];
        if k > 0 {
            out.push(0x20);
        }
        push_hex_byte(out, byte);
        proof {
            lemma_blob_prefix_step(b@, k as int);
            if k > 0 {
                assert(out@ =~= old(out)@ + (spec_blob_prefix(b@, k as int) + seq![0x20u8]
                    + hex_byte(b@[k as int])));
            } else {
                assert(spec_blob_prefix(b@, 0) =~= Seq::<u8>::empty());
                assert(out@ =~= old(out)@ + (spec_blob_prefix(b@, k as int) + hex_byte(
                    b@[k as int],
                )));
            }
        }
        k += 1;
    }
    proof {
        lemma_blob_prefix_full(b@);
    }
}

/// The blob text of the first `k` bytes.
pub open spec fn spec_blob_prefix(b: Seq<u8>, k: int) -> Seq<u8>
    decreases k,
{
    if k <= 0 {
        seq![]
    } else if k == 1 {
        hex_byte(b[0])
    } else {
        spec_blob_prefix(b, k - 1) + seq![0x20u8] + hex_byte(b[k - 1])
    }
}

proof fn lemma_blob_prefix_step(b: Seq<u8>, k: int)
    requires
        0 <= k < b.len(),
    ensures
        k == 0 ==> spec_blob_prefix(b, 1) == spec_blob_prefix(b, 0) + hex_byte(b[0]),
        k > 0 ==> spec_blob_prefix(b, k + 1) == spec_blob_prefix(b, k) + seq![0x20u8] + hex_byte(
            b[k],
        ),
{
    if k == 0 {
        assert(spec_blob_prefix(b, 0) + hex_byte(b[0]) =~= hex_byte(b[0]));
    }
}

proof fn lemma_blob_prefix_full(b: Seq<u8>)
    ensures
        spec_blob_prefix(b, b.len() as int) == blob_bytes(b),
    decreases b.len(),
{
    if b.len() <= 1 {
    } else {
        lemma_blob_prefix_full(b.drop_first());
        lemma_blob_prefix_shift(b, b.len() as int);
        assert(blob_bytes(b) == hex_byte(b[0]) + seq![0x20u8] + blob_bytes(b.drop_first()));
    }
}

proof fn lemma_blob_prefix_shift(b: Seq<u8>, k: int)
    requires
        2 <= k <= b.len(),
    ensures
        spec_blob_prefix(b, k) == hex_byte(b[0]) + seq![0x20u8] + spec_blob_prefix(
            b.drop_first(),
            k - 1,
        ),
    decreases k,
{
    if k == 2 {
        assert(b.drop_first()[0] == b[1]);
        assert(spec_blob_prefix(b, 2) == spec_blob_prefix(b, 1) + seq![0x20u8] + hex_byte(b[1]));
        assert(spec_blob_prefix(b.drop_first(), 1) == hex_byte(b[1]));
        assert(hex_byte(b[0]) + seq![0x20u8] + hex_byte(b[1]) =~= spec_blob_prefix(b, 1)
            + seq![0x20u8] + hex_byte(b[1]));
    } else {
        lemma_blob_prefix_shift(b, k - 1);
        assert(b.drop_first()[k - 2] == b[k - 1]);
        assert((hex_byte(b[0]) + seq![0x20u8] + spec_blob_prefix(b.drop_first(), k - 2))
            + seq![0x20u8] + hex_byte(b[k - 1]) =~= hex_byte(b[0]) + seq![0x20u8] + (
        spec_blob_prefix(b.drop_first(), k - 2) + seq![0x20u8] + hex_byte(b[k - 1])));
    }
}

/// Appends the unpadded hex of one byte.
fn push_hex_byte(out: &mut Vec<u8>, b: u8)
    ensures
        final(out)@ == old(out)@ + hex_byte(b),
{
    if b < 16 {
        out.push(hex_digit_exec(b));
        proof {
            assert(final(out)@ =~= old(out)@ + hex_byte(b));
        }
    } else {
        out.push(hex_digit_exec(b / 16));
        out.push(hex_digit_exec(b % 16));
        proof {
            assert(final(out)@ =~= old(out)@ + hex_byte(b));
        }
    }
}

fn hex_digit_exec(n: u8) -> (r: u8)
    requires
        n < 16,
    ensures
        r == hex_digit(n as int),
{
    if n < 10 {
        0x30 + n
    } else {
        0x61 + n - 10
    }
}

/// Appends the joined unpadded hex of all of `b`.
fn push_hex_run(out: &mut Vec<u8>, b: &Vec<u8>)
    ensures
        final(out)@ == old(out)@ + hex_run(b@),
{
    let mut k: usize = 0;
    proof {
        assert(b@.skip(0) =~= b@);
    }
    while k < b.len()
        invariant
            k <= b@.len(),
            old(out)@ + hex_run(b@) == out@ + hex_run(b@.skip(k as int)),
        decreases b@.len() - k,
    {
        proof {
            let s = b@.skip(k as int);
            assert(s[0] == b@[k as int]);
            assert(s.drop_first() =~= b@.skip(k + 1));
            assert(hex_run(s) == hex_byte(b@[k as int]) + hex_run(b@.skip(k + 1)));
            assert(forall|x: Seq<u8>, y: Seq<u8>, z: Seq<u8>| (x + y) + z =~= x + (y + z));
        }
        push_hex_byte(out, b[k]);
        k += 1;
    }
    proof {
        assert(b@.skip(b@.len() as int) =~= Seq::<u8>::empty());
        assert(hex_run(Seq::<u8>::empty()) =~= Seq::<u8>::empty());
        assert(out@ + Seq::<u8>::empty() =~= out@);
        assert(old(out)@ + hex_run(b@) =~= out@);
    }
}

/// ASCII keyword bytes are ASCII.
proof fn lemma_kw_ascii(kw: Seq<char>)
    requires
        vstd::utf8::is_ascii_chars(kw),
    ensures
        ascii_bytes(kw_bytes(kw)),
{
    assert forall|j: int| 0 <= j < kw_bytes(kw).len() implies kw_bytes(kw)[j] < 0x80 by {
        assert('\0' <= kw[j] <= '\u{7f}');
        assert((kw[j] as u8) < 0x80);
    }
}

proof fn lemma_dec_ascii(n: nat)
    ensures
        ascii_bytes(dec_digits(n)),
{
    lemma_dec_digits_are_digits(n);
    assert forall|j: int| 0 <= j < dec_digits(n).len() implies dec_digits(n)[j] < 0x80 by {
        assert(is_digit(dec_digits(n)[j]));
    }
}

proof fn lemma_fixed_ascii(n: int, p: nat)
    requires
        n >= 0,
    ensures
        ascii_bytes(spec_fixed_text(n, p)),
{
    lemma_dec_ascii((n / crate::digitvec::pow10(p)) as nat);
    let t = spec_fixed_text(n, p);
    let ip = dec_digits((n / crate::digitvec::pow10(p)) as nat);
    if p == 0 {
    } else {
        assert forall|j: int| 0 <= j < t.len() implies t[j] < 0x80 by {
            if j < ip.len() {
                assert(t[j] == ip[j]);
            } else if j == ip.len() {
                assert(t[j] == DOT);
            } else {
                let q = j - ip.len() - 1;
                assert(t[j] == (D0 + (n / crate::digitvec::pow10((p - 1 - q) as nat)) % 10) as u8);
            }
        }
    }
}

/// The rendering trim keeps bytes of the trimmed string, plus at most a
/// zero digit.
proof fn lemma_trim_ascii(s: Seq<u8>)
    requires
        ascii_bytes(s),
    ensures
        ascii_bytes(spec_trim_real(s)),
{
    lemma_trim_zeros_ascii(s);
    let t = trim_zeros(s);
    if t.len() > 0 && t.last() == DOT {
        assert forall|j: int| 0 <= j < t.push(D0).len() implies t.push(D0)[j] < 0x80 by {
            if j < t.len() {
            } else {
            }
        }
    }
}

proof fn lemma_trim_zeros_ascii(s: Seq<u8>)
    requires
        ascii_bytes(s),
    ensures
        ascii_bytes(trim_zeros(s)),
    decreases s.len(),
{
    if s.len() > 0 && s.last() == D0 {
        assert(ascii_bytes(s.drop_last()));
        lemma_trim_zeros_ascii(s.drop_last());
    }
}

proof fn lemma_double_text_ascii(bits: u64, prec: u8)
    ensures
        ascii_bytes(spec_double_text(bits, prec)),
{
    let p: nat = if prec < 30 {
        prec as nat
    } else {
        30
    };
    lemma_real_fixed_ascii_double(bits, p);
    lemma_trim_ascii(crate::ieee::spec_double_fixed(bits, p));
}

proof fn lemma_real_fixed_ascii_double(bits: u64, p: nat)
    ensures
        ascii_bytes(crate::ieee::spec_double_fixed(bits, p)),
{
    let t = crate::ieee::spec_double_fixed(bits, p);
    let expf = (bits / 0x10000000000000) % 0x800;
    let mant = bits % 0x10000000000000;
    if expf == 0x7ff {
        if mant != 0 {
            assert(ascii_bytes(crate::ieee::nan_text()));
        } else {
            lemma_sign_concat_ascii(crate::ieee::inf_text(), bits >= 0x8000000000000000);
            assert(ascii_bytes(crate::ieee::inf_text()));
        }
    } else {
        let m: int = if expf == 0 {
            mant as int
        } else {
            mant + 0x10000000000000
        };
        let e2: int = if expf == 0 {
            -1074
        } else {
            expf - 1075
        };
        let up: nat = if e2 >= 0 {
            e2 as nat
        } else {
            0
        };
        let down: nat = if e2 >= 0 {
            0
        } else {
            (-e2) as nat
        };
        lemma_scaled_nonneg(m, up, down, p);
        lemma_fixed_ascii(crate::ieee::spec_scaled_round(m, up, down, p), p);
        lemma_sign_concat_ascii(
            spec_fixed_text(crate::ieee::spec_scaled_round(m, up, down, p), p),
            bits >= 0x8000000000000000,
        );
    }
}

proof fn lemma_float_text_ascii(bits: u32, prec: u8)
    ensures
        ascii_bytes(spec_float_text(bits, prec)),
{
    let p: nat = if prec < 30 {
        prec as nat
    } else {
        30
    };
    let t = crate::ieee::spec_float_fixed(bits, p);
    let expf = (bits / 0x800000) % 0x100;
    let mant = bits % 0x800000;
    if expf == 0xff {
        if mant != 0 {
            assert(ascii_bytes(crate::ieee::nan_text()));
        } else {
            lemma_sign_concat_ascii(crate::ieee::inf_text(), bits >= 0x80000000);
            assert(ascii_bytes(crate::ieee::inf_text()));
        }
    } else {
        let m: int = if expf == 0 {
            mant as int
        } else {
            mant + 0x800000
        };
        let e2: int = if expf == 0 {
            -149
        } else {
            expf - 150
        };
        let up: nat = if e2 >= 0 {
            e2 as nat
        } else {
            0
        };
        let down: nat = if e2 >= 0 {
            0
        } else {
            (-e2) as nat
        };
        lemma_scaled_nonneg(m, up, down, p);
        lemma_fixed_ascii(crate::ieee::spec_scaled_round(m, up, down, p), p);
        lemma_sign_concat_ascii(
            spec_fixed_text(crate::ieee::spec_scaled_round(m, up, down, p), p),
            bits >= 0x80000000,
        );
    }
    lemma_trim_ascii(t);
}

/// The rounded scaled value of a nonnegative significand is nonnegative.
proof fn lemma_scaled_nonneg(m: int, up: nat, down: nat, p: nat)
    requires
        m >= 0,
    ensures
        crate::ieee::spec_scaled_round(m, up, down, p) >= 0,
{
    crate::ieee::lemma_pow2_pos(up);
    crate::ieee::lemma_pow5_pos(down);
    crate::digitvec::lemma_pow10_pos(p);
    crate::digitvec::lemma_pow10_pos(down);
    if down == 0 {
        assert(m * pow2(up) * crate::digitvec::pow10(p) >= 0) by (nonlinear_arith)
            requires
                m >= 0,
                pow2(up) >= 1,
                crate::digitvec::pow10(p) >= 1,
        ;
    } else {
        let scaled = m * crate::ieee::pow5(down) * crate::digitvec::pow10(p);
        assert(m * crate::ieee::pow5(down) >= 0) by (nonlinear_arith)
            requires
                m >= 0,
                crate::ieee::pow5(down) >= 1,
        ;
        assert((m * crate::ieee::pow5(down)) * crate::digitvec::pow10(p) >= 0)
            by (nonlinear_arith)
            requires
                m * crate::ieee::pow5(down) >= 0,
                crate::digitvec::pow10(p) >= 1,
        ;
        assert(scaled / crate::digitvec::pow10(down) >= 0) by (nonlinear_arith)
            requires
                scaled >= 0,
                crate::digitvec::pow10(down) >= 1,
        ;
    }
}

proof fn lemma_sign_concat_ascii(t: Seq<u8>, neg: bool)
    requires
        ascii_bytes(t),
    ensures
        ascii_bytes((if neg {
            seq![MINUS]
        } else {
            Seq::<u8>::empty()
        }) + t),
{
    let s: Seq<u8> = if neg {
        seq![MINUS]
    } else {
        Seq::empty()
    };
    assert forall|j: int| 0 <= j < (s + t).len() implies (s + t)[j] < 0x80 by {
        if j < s.len() {
            assert((s + t)[j] == MINUS);
        } else {
            assert((s + t)[j] == t[j - s.len()]);
        }
    }
}

proof fn lemma_hex_ascii(b: Seq<u8>)
    ensures
        ascii_bytes(blob_bytes(b)),
        ascii_bytes(hex_run(b)),
    decreases b.len(),
{
    if b.len() > 0 {
        lemma_hex_ascii(b.drop_first());
        assert(ascii_bytes(hex_byte(b[0]))) by {
            if b[0] < 16 {
                assert(hex_digit(b[0] as int) < 0x80);
            } else {
                assert(hex_digit(b[0] as int / 16) < 0x80);
                assert(hex_digit(b[0] as int % 16) < 0x80);
            }
        }
        assert forall|j: int| 0 <= j < hex_run(b).len() implies hex_run(b)[j] < 0x80 by {
            if j < hex_byte(b[0]).len() {
                assert(hex_run(b)[j] == hex_byte(b[0])[j]);
            } else {
                assert(hex_run(b)[j] == hex_run(b.drop_first())[j - hex_byte(b[0]).len()]);
            }
        }
        if b.len() == 1 {
        } else {
            let h = hex_byte(b[0]) + seq![0x20u8];
            assert forall|j: int| 0 <= j < blob_bytes(b).len() implies blob_bytes(b)[j] < 0x80 by {
                if j < h.len() {
                    assert(blob_bytes(b)[j] == h[j]);
                } else {
                    assert(blob_bytes(b)[j] == blob_bytes(b.drop_first())[j - h.len()]);
                }
            }
        }
    }
}

/// Everything the renderer writes is well-formed text.
pub proof fn lemma_literal_bytes_valid(l: LiteralV)
    requires
        spec_renderable(l),
    ensures
        vstd::utf8::valid_utf8(spec_literal_bytes(l)),
{
    broadcast use vstd::utf8::valid_utf8_concat;
    broadcast use vstd::utf8::encode_utf8_valid_utf8;

    match l {
        LiteralV::Null => {
            reveal_strlit("NULL");
            lemma_kw_ascii("NULL"@);
            lemma_ascii_valid(spec_literal_bytes(l));
        },
        LiteralV::Boolean(b) => {
            reveal_strlit("TRUE");
            reveal_strlit("FALSE");
            if b {
                lemma_kw_ascii("TRUE"@);
            } else {
                lemma_kw_ascii("FALSE"@);
            }
            lemma_ascii_valid(spec_literal_bytes(l));
        },
        LiteralV::Integer(i) => {
            if i < 0 {
                lemma_dec_ascii((-(i as int)) as nat);
                lemma_sign_concat_ascii(dec_digits((-(i as int)) as nat), true);
                assert(seq![MINUS] + dec_digits((-(i as int)) as nat) =~= (if true {
                    seq![MINUS]
                } else {
                    Seq::<u8>::empty()
                }) + dec_digits((-(i as int)) as nat));
            } else {
                lemma_dec_ascii(i as nat);
            }
            lemma_ascii_valid(spec_literal_bytes(l));
        },
        LiteralV::Float(f) => {
            lemma_float_text_ascii(f.bits, f.precision);
            lemma_ascii_valid(spec_literal_bytes(l));
        },
        LiteralV::Double(d) => {
            lemma_double_text_ascii(d.bits, d.precision);
            lemma_ascii_valid(spec_literal_bytes(l));
        },
        LiteralV::Numeric(m, s) => {
            let a: int = if m < 0 {
                -(m as int)
            } else {
                m as int
            };
            lemma_fixed_ascii(a, s as nat);
            if m < 0 {
                lemma_sign_concat_ascii(spec_fixed_text(a, s as nat), true);
                assert(seq![MINUS] + spec_fixed_text(a, s as nat) =~= (if true {
                    seq![MINUS]
                } else {
                    Seq::<u8>::empty()
                }) + spec_fixed_text(a, s as nat));
            }
            lemma_ascii_valid(spec_literal_bytes(l));
        },
        LiteralV::Str(s) => {
            let enc = vstd::utf8::encode_utf8(s);
            lemma_escape_valid(enc);
            lemma_ascii_valid(seq![QUOTE]);
            assert(vstd::utf8::valid_utf8(seq![QUOTE] + escape_bytes(enc)));
            assert(vstd::utf8::valid_utf8((seq![QUOTE] + escape_bytes(enc)) + seq![QUOTE]));
            assert(spec_literal_bytes(l) =~= (seq![QUOTE] + escape_bytes(enc)) + seq![QUOTE]);
        },
        LiteralV::Blob(b) => {
            lemma_hex_ascii(b);
            lemma_ascii_valid(spec_literal_bytes(l));
        },
        LiteralV::CurrentTime => {
            reveal_strlit("CURRENT_TIME");
            lemma_kw_ascii("CURRENT_TIME"@);
            lemma_ascii_valid(spec_literal_bytes(l));
        },
        LiteralV::CurrentDate => {
            reveal_strlit("CURRENT_DATE");
            lemma_kw_ascii("CURRENT_DATE"@);
            lemma_ascii_valid(spec_literal_bytes(l));
        },
        LiteralV::CurrentTimestamp => {
            reveal_strlit("CURRENT_TIMESTAMP");
            lemma_kw_ascii("CURRENT_TIMESTAMP"@);
            lemma_ascii_valid(spec_literal_bytes(l));
        },
        LiteralV::ByteArray(b) => {
            reveal_strlit("E'\\x");
            lemma_kw_ascii("E'\\x"@);
            lemma_hex_ascii(b);
            let t = kw_bytes("E'\\x"@) + hex_run(b) + seq![QUOTE];
            assert forall|j: int| 0 <= j < t.len() implies t[j] < 0x80 by {
                let a = kw_bytes("E'\\x"@);
                let h = hex_run(b);
                if j < a.len() {
                    assert(t[j] == a[j]);
                } else if j < a.len() + h.len() {
                    assert(t[j] == h[j - a.len()]);
                } else {
                    assert(t[j] == QUOTE);
                }
            }
            lemma_ascii_valid(t);
        },
        LiteralV::Placeholder(p) => {
            match p {
                ItemPlaceholder::QuestionMark => {
                    lemma_ascii_valid(spec_literal_bytes(l));
                },
                ItemPlaceholder::DollarNumber(n) => {
                    lemma_dec_ascii(n as nat);
                    let t = seq![0x24u8] + dec_digits(n as nat);
                    assert forall|j: int| 0 <= j < t.len() implies t[j] < 0x80 by {
                        if j == 0 {
                        } else {
                            assert(t[j] == dec_digits(n as nat)[j - 1]);
                        }
                    }
                    lemma_ascii_valid(t);
                },
                ItemPlaceholder::ColonNumber(n) => {
                    lemma_dec_ascii(n as nat);
                    let t = seq![0x3au8] + dec_digits(n as nat);
                    assert forall|j: int| 0 <= j < t.len() implies t[j] < 0x80 by {
                        if j == 0 {
                        } else {
                            assert(t[j] == dec_digits(n as nat)[j - 1]);
                        }
                    }
                    lemma_ascii_valid(t);
                },
            }
        },
        LiteralV::BitVector(b) => {
            reveal_strlit("B'");
            lemma_kw_ascii("B'"@);
            let t = kw_bytes("B'"@) + bits01(spec_bits_of_bytes(b)) + seq![QUOTE];
            assert forall|j: int| 0 <= j < t.len() implies t[j] < 0x80 by {
                let a = kw_bytes("B'"@);
                let h = bits01(spec_bits_of_bytes(b));
                if j < a.len() {
                    assert(t[j] == a[j]);
                } else if j < a.len() + h.len() {
                    assert(t[j] == h[j - a.len()]);
                } else {
                    assert(t[j] == QUOTE);
                }
            }
            lemma_ascii_valid(t);
        },
    }
}

impl Literal {
    /// The canonical SQL text of this literal: `NULL`, `TRUE`, decimal
    /// digits, quoted and escaped strings, hex and bit forms, exactly as
    /// the grammar reads them back.
    pub fn to_sql_text(&self) -> (r: String)
        requires
            self.renderable(),
        ensures
            vstd::utf8::encode_utf8(r@) == spec_literal_bytes(self@),
    {
        let b = self.sql_bytes();
        proof {
            lemma_literal_bytes_valid(self@);
        }
        let s = string_from_valid(b);
        proof {
            broadcast use vstd::utf8::decode_utf8_encode_utf8;

        }
        s
    }
}

/// The spans of a floating literal's text: sign, whole digits, dot,
/// fractional digits.
#[derive(Clone, Copy, Debug, PartialEq, Eq, Hash, Structural)]
pub struct FloatSpan {
    pub negative: bool,
    pub whole_start: usize,
    pub whole_end: usize,
    pub frac_start: usize,
    pub frac_end: usize,
}

/// A floating literal shape at `pos`: optional minus, digits, a dot,
/// digits; the result gives the end and the four span bounds.
pub open spec fn spec_float(s: Seq<u8>, pos: int) -> Option<(int, bool, int, int, int, int)> {
    let neg = pos < s.len() && s[pos] == MINUS;
    let p1 = if neg {
        pos + 1
    } else {
        pos
    };
    if p1 < s.len() && is_digit(s[p1]) {
        let we = digit_end(s, p1);
        if we + 1 < s.len() && s[we] == DOT && is_digit(s[we + 1]) {
            let fe = digit_end(s, we + 1);
            Some((fe, neg, p1, we, we + 1, fe))
        } else {
            None
        }
    } else {
        None
    }
}

/// Recognizes a floating literal's spans without building its value.
pub fn float(i: &[u8], pos: usize) -> (r: Option<(usize, FloatSpan)>)
    requires
        pos <= i@.len(),
    ensures
        match r {
            Some((p2, sp)) => spec_float(i@, pos as int) == Some(
                (
                    p2 as int,
                    sp.negative,
                    sp.whole_start as int,
                    sp.whole_end as int,
                    sp.frac_start as int,
                    sp.frac_end as int,
                ),
            ) && pos < p2 <= i@.len() && sp.whole_start <= sp.whole_end < sp.frac_start
                <= sp.frac_end == p2,
            None => spec_float(i@, pos as int) is None,
        },
{
    let neg = pos < i.len() && i[pos] == 0x2d;
    let p1 = if neg {
        pos + 1
    } else {
        pos
    };
    if !(p1 < i.len() && 0x30 <= i[p1] && i[p1] <= 0x39) {
        return None;
    }
    let we = match crate::lexical::digit1(i, p1) {
        Some(e) => e,
        None => {
            return None;
        },
    };
    if !(we < i.len() && i[we] == 0x2e) {
        return None;
    }
    if !(we + 1 < i.len() && 0x30 <= i[we + 1] && i[we + 1] <= 0x39) {
        return None;
    }
    let fe = match crate::lexical::digit1(i, we + 1) {
        Some(e) => e,
        None => {
            proof {
                assert(false);
            }
            return None;
        },
    };
    Some(
        (
            fe,
            FloatSpan {
                negative: neg,
                whole_start: p1,
                whole_end: we,
                frac_start: we + 1,
                frac_end: fe,
            },
        ),
    )
}

/// A floating literal parsed to a value: the bits of the nearest double,
/// and the count of fractional digits as the rendering precision.
pub open spec fn spec_float_literal(s: Seq<u8>, pos: int) -> Option<(int, LiteralV)> {
    match spec_float(s, pos) {
        Some((e, neg, ws, we, fs, fe)) => Some(
            (
                e,
                LiteralV::Double(
                    Double {
                        bits: spec_real_bits(neg, s.subrange(ws, we), s.subrange(fs, fe)),
                        precision: (((fe - fs) % 256) as u8),
                    },
                ),
            ),
        ),
        None => None,
    }
}

pub fn float_literal(i: &[u8], pos: usize) -> (r: Option<(usize, Literal)>)
    requires
        pos <= i@.len(),
    ensures
        match r {
            Some((p2, v)) => spec_float_literal(i@, pos as int) == Some((p2 as int, v@)) && pos
                < p2 <= i@.len(),
            None => spec_float_literal(i@, pos as int) is None,
        },
{
    match float(i, pos) {
        Some((p2, sp)) => {
            let wv = copy_range(i, sp.whole_start, sp.whole_end);
            let fv = copy_range(i, sp.frac_start, sp.frac_end);
            proof {
                crate::lexical::lemma_digit_end(i@, sp.whole_start as int);
                crate::lexical::lemma_digit_end(i@, sp.frac_start as int);
                assert(crate::digitvec::all_digits(wv@));
                assert(crate::digitvec::all_digits(fv@));
            }
            let bits = real_bits(sp.negative, wv.as_slice(), fv.as_slice());
            let flen = sp.frac_end - sp.frac_start;
            let prec: u8 = (flen % 256) as u8;
            Some((p2, Literal::Double(Double { bits, precision: prec })))
        },
        None => None,
    }
}

/// An integer literal: optional minus, then digits that fit a signed
/// 64-bit value; a larger run of digits fails rather than wrapping.
pub open spec fn spec_integer_literal(s: Seq<u8>, pos: int) -> Option<(int, LiteralV)> {
    let neg = pos < s.len() && s[pos] == MINUS;
    let p1 = if neg {
        pos + 1
    } else {
        pos
    };
    match spec_uint(s, p1, 0x7fffffffffffffff) {
        Some((e, v)) => Some(
            (
                e,
                LiteralV::Integer(
                    if neg {
                        (-(v as int)) as i64
                    } else {
                        v as i64
                    },
                ),
            ),
        ),
        None => None,
    }
}

pub fn integer_literal(i: &[u8], pos: usize) -> (r: Option<(usize, Literal)>)
    requires
        pos <= i@.len(),
    ensures
        match r {
            Some((p2, v)) => spec_integer_literal(i@, pos as int) == Some((p2 as int, v@)) && pos
                < p2 <= i@.len(),
            None => spec_integer_literal(i@, pos as int) is None,
        },
{
    let neg = pos < i.len() && i[pos] == 0x2d;
    let p1 = if neg {
        pos + 1
    } else {
        pos
    };
    match parse_uint(i, p1, 0x7fffffffffffffff) {
        Some((p2, v)) => {
            let val: i64 = if neg {
                -(v as i64)
            } else {
                v as i64
            };
            Some((p2, Literal::Integer(val)))
        },
        None => None,
    }
}

/// `TRUE` or `FALSE` in any case.
pub open spec fn spec_boolean_literal(s: Seq<u8>, pos: int) -> Option<(int, LiteralV)> {
    match spec_tag_nc(s, pos, "true"@) {
        Some(e) => Some((e, LiteralV::Boolean(true))),
        None => match spec_tag_nc(s, pos, "false"@) {
            Some(e) => Some((e, LiteralV::Boolean(false))),
            None => None,
        },
    }
}

pub fn boolean_literal(i: &[u8], pos: usize) -> (r: Option<(usize, Literal)>)
    requires
        pos <= i@.len(),
    ensures
        match r {
            Some((p2, v)) => spec_boolean_literal(i@, pos as int) == Some((p2 as int, v@)) && pos
                < p2 <= i@.len(),
            None => spec_boolean_literal(i@, pos as int) is None,
        },
{
    proof {
        reveal_strlit("true");
        reveal_strlit("false");
    }
    if let Some(e) = tag_nc(i, pos, "true") {
        return Some((e, Literal::Boolean(true)));
    }
    if let Some(e) = tag_nc(i, pos, "false") {
        return Some((e, Literal::Boolean(false)));
    }
    None
}

/// Any literal value: the alternation order is load-bearing — a floating
/// literal is tried before a plain integer, a string that is not valid
/// text degrades to a blob, and the keyword and placeholder forms follow.
pub open spec fn spec_literal(d: Dialect, s: Seq<u8>, pos: int) -> Option<(int, LiteralV)> {
    if spec_float_literal(s, pos) is Some {
        spec_float_literal(s, pos)
    } else if spec_integer_literal(s, pos) is Some {
        spec_integer_literal(s, pos)
    } else if spec_string_literal(d, s, pos) is Some {
        match spec_string_literal(d, s, pos) {
            Some((e, bytes)) => {
                if vstd::utf8::valid_utf8(bytes) {
                    Some((e, LiteralV::Str(vstd::utf8::decode_utf8(bytes))))
                } else {
                    Some((e, LiteralV::Blob(bytes)))
                }
            },
            None => None,
        }
    } else if spec_bytes_literal(s, pos) is Some {
        match spec_bytes_literal(s, pos) {
            Some((e, bytes)) => Some((e, LiteralV::ByteArray(bytes))),
            None => None,
        }
    } else if spec_bitvec_literal(s, pos) is Some {
        match spec_bitvec_literal(s, pos) {
            Some((e, bits)) => Some((e, LiteralV::BitVector(spec_bytes_of_bits(bits)))),
            None => None,
        }
    } else if spec_tag_nc(s, pos, "null"@) is Some {
        Some((spec_tag_nc(s, pos, "null"@)->Some_0, LiteralV::Null))
    } else if spec_tag_nc(s, pos, "current_timestamp"@) is Some {
        Some((spec_tag_nc(s, pos, "current_timestamp"@)->Some_0, LiteralV::CurrentTimestamp))
    } else if spec_tag_nc(s, pos, "current_date"@) is Some {
        Some((spec_tag_nc(s, pos, "current_date"@)->Some_0, LiteralV::CurrentDate))
    } else if spec_tag_nc(s, pos, "current_time"@) is Some {
        Some((spec_tag_nc(s, pos, "current_time"@)->Some_0, LiteralV::CurrentTime))
    } else if spec_byte(s, pos, 0x3f) is Some {
        Some((pos + 1, LiteralV::Placeholder(ItemPlaceholder::QuestionMark)))
    } else if spec_byte(s, pos, 0x3a) is Some && spec_uint(s, pos + 1, 0xffffffff) is Some {
        let (e, v) = spec_uint(s, pos + 1, 0xffffffff)->Some_0;
        Some((e, LiteralV::Placeholder(ItemPlaceholder::ColonNumber(v as u32))))
    } else if spec_byte(s, pos, 0x24) is Some && spec_uint(s, pos + 1, 0xffffffff) is Some {
        let (e, v) = spec_uint(s, pos + 1, 0xffffffff)->Some_0;
        Some((e, LiteralV::Placeholder(ItemPlaceholder::DollarNumber(v as u32))))
    } else {
        spec_boolean_literal(s, pos)
    }
}

/// Reads one literal of either dialect.
pub fn literal(d: Dialect, i: &[u8], pos: usize) -> (r: Option<(usize, Literal)>)
    requires
        pos <= i@.len(),
    ensures
        match r {
            Some((p2, v)) => spec_literal(d, i@, pos as int) == Some((p2 as int, v@)) && pos < p2
                <= i@.len(),
            None => spec_literal(d, i@, pos as int) is None,
        },
{
    proof {
        reveal_strlit("null");
        reveal_strlit("current_timestamp");
        reveal_strlit("current_date");
        reveal_strlit("current_time");
    }
    if let Some((p2, v)) = float_literal(i, pos) {
        return Some((p2, v));
    }
    if let Some((p2, v)) = integer_literal(i, pos) {
        return Some((p2, v));
    }
    if let Some((p2, bytes)) = string_literal(d, i, pos) {
        match crate::dialect::bytes_to_string(&bytes) {
            Some(s) => {
                return Some((p2, Literal::String(s)));
            },
            None => {
                return Some((p2, Literal::Blob(bytes)));
            },
        }
    }
    if let Some((p2, bytes)) = bytes_literal(i, pos) {
        return Some((p2, Literal::ByteArray(bytes)));
    }
    if let Some((p2, bits)) = bitvec_literal(i, pos) {
        let packed = bytes_of_bits(bits);
        return Some((p2, Literal::BitVector(packed)));
    }
    if let Some(e) = tag_nc(i, pos, "null") {
        return Some((e, Literal::Null));
    }
    if let Some(e) = tag_nc(i, pos, "current_timestamp") {
        return Some((e, Literal::CurrentTimestamp));
    }
    if let Some(e) = tag_nc(i, pos, "current_date") {
        return Some((e, Literal::CurrentDate));
    }
    if let Some(e) = tag_nc(i, pos, "current_time") {
        return Some((e, Literal::CurrentTime));
    }
    if let Some(e) = byte_tag(i, pos, 0x3f) {
        return Some((e, Literal::Placeholder(ItemPlaceholder::QuestionMark)));
    }
    if let Some(_e) = byte_tag(i, pos, 0x3a) {
        if let Some((e, v)) = parse_uint(i, pos + 1, 0xffffffff) {
            return Some((e, Literal::Placeholder(ItemPlaceholder::ColonNumber(v as u32))));
        }
    }
    if let Some(_e) = byte_tag(i, pos, 0x24) {
        if let Some((e, v)) = parse_uint(i, pos + 1, 0xffffffff) {
            return Some((e, Literal::Placeholder(ItemPlaceholder::DollarNumber(v as u32))));
        }
    }
    boolean_literal(i, pos)
}

/// The tail of a comma-separated literal list: leading separator, then a
/// literal, as long as both stand.
pub open spec fn spec_value_list_tail(d: Dialect, s: Seq<u8>, pos: int) -> (int, Seq<LiteralV>)
    decreases s.len() - pos,
{
    let w1 = crate::lexical::ws_end(s, pos);
    match spec_byte(s, w1, 0x2c) {
        Some(pc) => {
            let w2 = crate::lexical::ws_end(s, pc);
            match spec_literal(d, s, w2) {
                Some((pe, v)) => {
                    if pos < pe <= s.len() {
                        let (pr, rest) = spec_value_list_tail(d, s, pe);
                        (pr, seq![v] + rest)
                    } else {
                        (pos, seq![])
                    }
                },
                None => (pos, seq![]),
            }
        },
        None => (pos, seq![]),
    }
}

/// A possibly empty comma-separated list of literals.
pub open spec fn spec_value_list(d: Dialect, s: Seq<u8>, pos: int) -> (int, Seq<LiteralV>) {
    match spec_literal(d, s, pos) {
        Some((p1, v)) => {
            let (pr, rest) = spec_value_list_tail(d, s, p1);
            (pr, seq![v] + rest)
        },
        None => (pos, seq![]),
    }
}

/// Reads a comma-separated list of literals, as `INSERT` values use.
pub fn value_list(d: Dialect, i: &[u8], pos: usize) -> (r: (usize, Vec<Literal>))
    requires
        pos <= i@.len(),
    ensures
        ({
            let (pr, vs) = spec_value_list(d, i@, pos as int);
            r.0 as int == pr && r.1@.len() == vs.len() && (forall|j: int|
                0 <= j < vs.len() ==> #[trigger] r.1@[j]@ == vs[j]) && pos <= r.0 <= i@.len()
        }),
{
    let mut out: Vec<Literal> = Vec::new();
    let first = literal(d, i, pos);
    let mut p: usize;
    match first {
        None => {
            proof {
                assert(spec_value_list(d, i@, pos as int).1 =~= Seq::<LiteralV>::empty());
            }
            return (pos, out);
        },
        Some((p1, v)) => {
            out.push(v);
            p = p1;
        },
    }
    let ilen = i.len();
    let ghost whole = spec_value_list(d, i@, pos as int);
    proof {
        assert(ilen == i@.len());
        assert(whole.0 == spec_value_list_tail(d, i@, p as int).0);
        assert(whole.1 =~= out@.map(|j: int, l: Literal| l@) + spec_value_list_tail(
            d,
            i@,
            p as int,
        ).1);
    }
    loop
        invariant
            pos < p <= i@.len(),
            i@.len() <= usize::MAX,
            whole == spec_value_list(d, i@, pos as int),
            whole.0 == spec_value_list_tail(d, i@, p as int).0 + (whole.0 - spec_value_list_tail(
                d,
                i@,
                p as int,
            ).0),
            spec_value_list_tail(d, i@, p as int).0 == whole.0 || spec_value_list_tail(
                d,
                i@,
                p as int,
            ).0 == whole.0,
            whole.1 =~= out@.map(|j: int, l: Literal| l@) + spec_value_list_tail(
                d,
                i@,
                p as int,
            ).1,
        decreases i@.len() - p,
    {
        let w1 = crate::lexical::ws0(i, p);
        let pc = match byte_tag(i, w1, 0x2c) {
            Some(pc) => pc,
            None => {
                proof {
                    lemma_tail_stops(d, i@, p as int);
                    assert(whole.1 =~= out@.map(|j: int, l: Literal| l@));
                    lemma_map_index(out@, whole.1);
                }
                return (p, out);
            },
        };
        let w2 = crate::lexical::ws0(i, pc);
        match literal(d, i, w2) {
            Some((pe, v2)) => {
                proof {
                    let (pr, rest) = spec_value_list_tail(d, i@, pe as int);
                    assert(spec_value_list_tail(d, i@, p as int).1 =~= seq![v2@] + rest);
                    assert((out@.map(|j: int, l: Literal| l@) + (seq![v2@] + rest)) =~= (out@.push(
                        v2,
                    ).map(|j: int, l: Literal| l@) + rest));
                }
                out.push(v2);
                p = pe;
            },
            None => {
                proof {
                    lemma_tail_stops(d, i@, p as int);
                    assert(whole.1 =~= out@.map(|j: int, l: Literal| l@));
                    lemma_map_index(out@, whole.1);
                }
                return (p, out);
            },
        }
    }
}

/// When no separator-and-literal follows, the list tail adds nothing.
proof fn lemma_tail_stops(d: Dialect, s: Seq<u8>, pos: int)
    requires
        0 <= pos <= s.len(),
        ({
            let w1 = crate::lexical::ws_end(s, pos);
            spec_byte(s, w1, 0x2c) is None || spec_literal(
                d,
                s,
                crate::lexical::ws_end(s, w1 + 1),
            ) is None
        }),
    ensures
        spec_value_list_tail(d, s, pos) == (pos, Seq::<LiteralV>::empty()),
{
    let w1 = crate::lexical::ws_end(s, pos);
    crate::lexical::lemma_ws_end(s, pos);
    if spec_byte(s, w1, 0x2c) is Some {
        assert(spec_value_list_tail(d, s, pos).1 =~= Seq::<LiteralV>::empty());
    } else {
        assert(spec_value_list_tail(d, s, pos).1 =~= Seq::<LiteralV>::empty());
    }
}

proof fn lemma_map_index(v: Seq<Literal>, m: Seq<LiteralV>)
    requires
        m =~= v.map(|j: int, l: Literal| l@),
    ensures
        m.len() == v.len(),
        forall|j: int| 0 <= j < m.len() ==> #[trigger] v[j]@ == m[j],
{
    assert(forall|j: int|
        0 <= j < v.len() ==> v.map(|q: int, l: Literal| l@)[j] == #[trigger] v[j]@);
}

impl ItemPlaceholder {
    /// The marker in its written form: `?`, `$N`, or `:N`.
    pub fn to_sql_text(&self) -> (r: String)
        ensures
            vstd::utf8::encode_utf8(r@) == placeholder_bytes(*self),
    {
        let mut out: Vec<u8> = Vec::new();
        match self {
            ItemPlaceholder::QuestionMark => {
                out.push(0x3f);
                proof {
                    assert(out@ =~= placeholder_bytes(*self));
                }
            },
            ItemPlaceholder::DollarNumber(n) => {
                out.push(0x24);
                proof {
                    assert(out@ =~= seq![0x24u8]);
                }
                push_dec_u64(&mut out, *n as u64);
            },
            ItemPlaceholder::ColonNumber(n) => {
                out.push(0x3a);
                proof {
                    assert(out@ =~= seq![0x3au8]);
                }
                push_dec_u64(&mut out, *n as u64);
            },
        }
        proof {
            lemma_placeholder_ascii(*self);
            lemma_ascii_valid(out@);
        }
        let s = string_from_valid(out);
        proof {
            broadcast use vstd::utf8::decode_utf8_encode_utf8;

        }
        s
    }
}

proof fn lemma_placeholder_ascii(p: ItemPlaceholder)
    ensures
        ascii_bytes(placeholder_bytes(p)),
{
    match p {
        ItemPlaceholder::QuestionMark => {},
        ItemPlaceholder::DollarNumber(n) => {
            lemma_dec_ascii(n as nat);
            let t = seq![0x24u8] + dec_digits(n as nat);
            assert forall|j: int| 0 <= j < t.len() implies t[j] < 0x80 by {
                if j == 0 {
                } else {
                    assert(t[j] == dec_digits(n as nat)[j - 1]);
                }
            }
        },
        ItemPlaceholder::ColonNumber(n) => {
            lemma_dec_ascii(n as nat);
            let t = seq![0x3au8] + dec_digits(n as nat);
            assert forall|j: int| 0 <= j < t.len() implies t[j] < 0x80 by {
                if j == 0 {
                } else {
                    assert(t[j] == dec_digits(n as nat)[j - 1]);
                }
            }
        },
    }
}

impl From<bool> for Literal {
    fn from(b: bool) -> (r: Literal) {
        Literal::Boolean(b)
    }
}

impl vstd::std_specs::convert::FromSpecImpl<bool> for Literal {
    open spec fn obeys_from_spec() -> bool {
        true
    }

    open spec fn from_spec(b: bool) -> Literal {
        Literal::Boolean(b)
    }
}

impl From<i64> for Literal {
    fn from(i: i64) -> (r: Literal) {
        Literal::Integer(i)
    }
}

impl vstd::std_specs::convert::FromSpecImpl<i64> for Literal {
    open spec fn obeys_from_spec() -> bool {
        true
    }

    open spec fn from_spec(i: i64) -> Literal {
        Literal::Integer(i)
    }
}

impl From<i32> for Literal {
    fn from(i: i32) -> (r: Literal) {
        Literal::Integer(i as i64)
    }
}

impl vstd::std_specs::convert::FromSpecImpl<i32> for Literal {
    open spec fn obeys_from_spec() -> bool {
        true
    }

    open spec fn from_spec(i: i32) -> Literal {
        Literal::Integer(i as i64)
    }
}

impl From<u32> for Literal {
    fn from(i: u32) -> (r: Literal) {
        Literal::Integer(i as i64)
    }
}

impl vstd::std_specs::convert::FromSpecImpl<u32> for Literal {
    open spec fn obeys_from_spec() -> bool {
        true
    }

    open spec fn from_spec(i: u32) -> Literal {
        Literal::Integer(i as i64)
    }
}

impl From<String> for Literal {
    fn from(s: String) -> (r: Literal) {
        Literal::String(s)
    }
}

impl vstd::std_specs::convert::FromSpecImpl<String> for Literal {
    open spec fn obeys_from_spec() -> bool {
        true
    }

    open spec fn from_spec(s: String) -> Literal {
        Literal::String(s)
    }
}

} // verus!
