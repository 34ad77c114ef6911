//! The stated properties of the library, proved once and for all: the
//! bit-pattern equality of the floating wrappers, the failure of
//! out-of-range precisions, the case-insensitivity of the boolean
//! keywords, and the render/parse round trip of literals.

use vstd::prelude::*;
use crate::dialect::{escape_bytes, esc1, spec_bitvec_literal, spec_bytes_literal, spec_quoted_body, spec_string_literal, Dialect};
use crate::lexical::{byte_matches_char, dec_digits, digit_end, digits_val, fold_byte, fold_char, is_digit, kw_bytes, lemma_dec_digits_are_digits, lemma_dec_digits_val, lemma_digit_end, spec_byte, spec_digit1, spec_tag_nc, spec_uint, BACKSLASH, DQUOTE, MINUS, QUOTE};
use crate::literal::{spec_float, spec_float_literal, spec_integer_literal, spec_literal, spec_literal_bytes, Double, Float, ItemPlaceholder, Literal, LiteralV};
use crate::sqltype::{spec_numeric_precision, spec_precision};

verus! {

/// Two floating wrappers are equal exactly when their bit patterns and
/// rendering precisions are: equality goes by the bits, not by the
/// floating comparison, so equal-pattern not-a-numbers compare equal and
/// any deterministic hasher fed the fields hashes equal values alike.
pub proof fn lemma_double_eq_is_bitwise(a: Double, b: Double)
    ensures
        (a == b) <==> (a.bits == b.bits && a.precision == b.precision),
{
}

/// The single-precision wrapper compares by bit pattern in the same way.
pub proof fn lemma_float_eq_is_bitwise(a: Float, b: Float)
    ensures
        (a == b) <==> (a.bits == b.bits && a.precision == b.precision),
{
}

/// A parenthesized precision whose digits exceed the two-byte range fails
/// to parse; nothing is truncated.
pub proof fn lemma_numeric_precision_overflow(s: Seq<u8>, pos: int)
    requires
        0 <= pos,
        spec_byte(s, pos, 0x28) is Some,
        spec_digit1(s, pos + 1) is Some,
        digits_val(s.subrange(pos + 1, spec_digit1(s, pos + 1)->Some_0)) > 0xffff,
    ensures
        spec_numeric_precision(s, pos) is None,
{
}

/// A parenthesized precision whose digits exceed the one-byte range fails
/// to parse; nothing is truncated.
pub proof fn lemma_precision_overflow(s: Seq<u8>, pos: int)
    requires
        0 <= pos,
        spec_byte(s, pos, 0x28) is Some,
        spec_digit1(s, pos + 1) is Some,
        digits_val(s.subrange(pos + 1, spec_digit1(s, pos + 1)->Some_0)) > 255,
    ensures
        spec_precision(s, pos) is None,
{
}

/// A byte that can open neither a number nor a string nor a byte or bit
/// form sends the literal grammar past those branches.
proof fn lemma_no_number(s: Seq<u8>, pos: int)
    requires
        0 <= pos < s.len(),
        !is_digit(s[pos]),
        s[pos] != MINUS,
    ensures
        spec_float_literal(s, pos) is None,
        spec_integer_literal(s, pos) is None,
{
}

proof fn lemma_no_string(d: Dialect, s: Seq<u8>, pos: int)
    requires
        0 <= pos < s.len(),
        s[pos] != QUOTE,
        s[pos] != DQUOTE,
    ensures
        spec_string_literal(d, s, pos) is None,
{
}

/// A keyword cannot match where its first character differs, case folded.
proof fn lemma_tag_fails(s: Seq<u8>, pos: int, kw: Seq<char>)
    requires
        0 <= pos < s.len(),
        kw.len() > 0,
        fold_byte(s[pos]) as u32 != fold_char(kw[0]),
    ensures
        spec_tag_nc(s, pos, kw) is None,
{
    if vstd::utf8::is_ascii_chars(kw) && pos + kw.len() <= s.len() {
        assert(!byte_matches_char(s[pos + 0], kw[0]));
        assert(!(forall|j: int|
            0 <= j < kw.len() ==> byte_matches_char(s[pos + j], #[trigger] kw[j])));
    }
}

/// A keyword cannot match where the input is too short.
proof fn lemma_tag_short(s: Seq<u8>, pos: int, kw: Seq<char>)
    requires
        pos + kw.len() > s.len(),
    ensures
        spec_tag_nc(s, pos, kw) is None,
{
}

/// Any spelling of `TRUE` in either case, at a place where nothing earlier
/// in the alternation can start, reads as the true boolean literal: the
/// keyword is matched without regard to case.
pub proof fn lemma_boolean_true_any_case(d: Dialect, s: Seq<u8>, pos: int)
    requires
        0 <= pos,
        pos + 4 <= s.len(),
        fold_byte(s[pos]) == 0x74,
        fold_byte(s[pos + 1]) == 0x72,
        fold_byte(s[pos + 2]) == 0x75,
        fold_byte(s[pos + 3]) == 0x65,
    ensures
        spec_literal(d, s, pos) == Some((pos + 4, LiteralV::Boolean(true))),
{
    reveal_strlit("true");
    reveal_strlit("false");
    reveal_strlit("null");
    reveal_strlit("current_timestamp");
    reveal_strlit("current_date");
    reveal_strlit("current_time");
    reveal_strlit("e'\\x");
    reveal_strlit("b'");
    let b0 = s[pos];
    assert(fold_byte(b0) == 0x74);
    assert(!is_digit(b0) && b0 != MINUS && b0 != QUOTE && b0 != DQUOTE);
    lemma_no_number(s, pos);
    lemma_no_string(d, s, pos);
    lemma_tag_fails(s, pos, "e'\\x"@);
    lemma_tag_fails(s, pos, "b'"@);
    lemma_tag_fails(s, pos, "null"@);
    lemma_tag_fails(s, pos, "current_timestamp"@);
    lemma_tag_fails(s, pos, "current_date"@);
    lemma_tag_fails(s, pos, "current_time"@);
    assert(b0 != 0x3f && b0 != 0x3a && b0 != 0x24);
    assert(vstd::utf8::is_ascii_chars("true"@));
    assert(spec_tag_nc(s, pos, "true"@) == Some(pos + 4)) by {
        assert forall|j: int| 0 <= j < 4 implies byte_matches_char(
            s[pos + j],
            #[trigger] ("true"@)[j],
        ) by {
            assert(("true"@)[0] == 't' && ("true"@)[1] == 'r' && ("true"@)[2] == 'u' && (
            "true"@)[3] == 'e');
        }
    }
}

/// Any spelling of `FALSE` reads as the false boolean literal.
pub proof fn lemma_boolean_false_any_case(d: Dialect, s: Seq<u8>, pos: int)
    requires
        0 <= pos,
        pos + 5 <= s.len(),
        fold_byte(s[pos]) == 0x66,
        fold_byte(s[pos + 1]) == 0x61,
        fold_byte(s[pos + 2]) == 0x6c,
        fold_byte(s[pos + 3]) == 0x73,
        fold_byte(s[pos + 4]) == 0x65,
    ensures
        spec_literal(d, s, pos) == Some((pos + 5, LiteralV::Boolean(false))),
{
    reveal_strlit("true");
    reveal_strlit("false");
    reveal_strlit("null");
    reveal_strlit("current_timestamp");
    reveal_strlit("current_date");
    reveal_strlit("current_time");
    reveal_strlit("e'\\x");
    reveal_strlit("b'");
    let b0 = s[pos];
    assert(!is_digit(b0) && b0 != MINUS && b0 != QUOTE && b0 != DQUOTE);
    lemma_no_number(s, pos);
    lemma_no_string(d, s, pos);
    lemma_tag_fails(s, pos, "e'\\x"@);
    lemma_tag_fails(s, pos, "b'"@);
    lemma_tag_fails(s, pos, "null"@);
    lemma_tag_fails(s, pos, "current_timestamp"@);
    lemma_tag_fails(s, pos, "current_date"@);
    lemma_tag_fails(s, pos, "current_time"@);
    assert(b0 != 0x3f && b0 != 0x3a && b0 != 0x24);
    lemma_tag_fails(s, pos, "true"@);
    assert(vstd::utf8::is_ascii_chars("false"@));
    assert(spec_tag_nc(s, pos, "false"@) == Some(pos + 5)) by {
        assert forall|j: int| 0 <= j < 5 implies byte_matches_char(
            s[pos + j],
            #[trigger] ("false"@)[j],
        ) by {
            assert(("false"@)[0] == 'f' && ("false"@)[1] == 'a' && ("false"@)[2] == 'l' && (
            "false"@)[3] == 's' && ("false"@)[4] == 'e');
        }
    }
}

/// Where the digits from `pos` run exactly to `e`, the digit scan stops
/// there.
proof fn lemma_digit_run(s: Seq<u8>, pos: int, e: int)
    requires
        0 <= pos <= e <= s.len(),
        forall|j: int| pos <= j < e ==> is_digit(#[trigger] s[j]),
        e < s.len() ==> !is_digit(s[e]),
    ensures
        digit_end(s, pos) == e,
{
    lemma_digit_end(s, pos);
    let de = digit_end(s, pos);
    if de < e {
        assert(is_digit(s[de]));
    } else if de > e {
        assert(is_digit(s[e]));
    }
}

/// The refutations every keyword-form round trip needs: at an upper-case
/// letter other than the early branches' openers, the alternation reaches
/// the keyword branches.
proof fn lemma_skip_to_keywords(d: Dialect, s: Seq<u8>, pos: int)
    requires
        0 <= pos < s.len(),
        !is_digit(s[pos]),
        s[pos] != MINUS,
        s[pos] != QUOTE,
        s[pos] != DQUOTE,
        fold_byte(s[pos]) != 0x65,
        fold_byte(s[pos]) != 0x62,
    ensures
        spec_float_literal(s, pos) is None,
        spec_integer_literal(s, pos) is None,
        spec_string_literal(d, s, pos) is None,
        spec_bytes_literal(s, pos) is None,
        spec_bitvec_literal(s, pos) is None,
{
    reveal_strlit("e'\\x");
    reveal_strlit("b'");
    lemma_no_number(s, pos);
    lemma_no_string(d, s, pos);
    lemma_tag_fails(s, pos, "e'\\x"@);
    lemma_tag_fails(s, pos, "b'"@);
}

/// An upper-case keyword matches its lower-case tag.
proof fn lemma_kw_matches(s: Seq<u8>, pos: int, up: Seq<char>, low: Seq<char>)
    requires
        0 <= pos,
        vstd::utf8::is_ascii_chars(up),
        up.len() == low.len(),
        pos + up.len() <= s.len(),
        vstd::utf8::is_ascii_chars(low),
        forall|j: int| 0 <= j < up.len() ==> s[pos + j] == (#[trigger] up[j]) as u8,
        forall|j: int| 0 <= j < up.len() ==> fold_char(#[trigger] up[j]) == fold_char(low[j]),
    ensures
        spec_tag_nc(s, pos, low) == Some(pos + up.len()),
{
    assert forall|j: int| 0 <= j < low.len() implies byte_matches_char(
        s[pos + j],
        #[trigger] low[j],
    ) by {
        assert('\0' <= up[j] <= '\u{7f}');
        assert((up[j] as u32) < 128);
        assert(s[pos + j] == up[j] as u8);
        assert(fold_byte(up[j] as u8) as u32 == fold_char(up[j])) by {
            if 'A' <= up[j] && up[j] <= 'Z' {
            } else {
            }
        }
    }
}

/// The round-trip law: rendering a literal and reading it back under
/// either dialect recovers the same value, for every variant whose text is
/// faithful — the floating, numeric, byte-array and blob forms are lossy
/// by design, and the one 64-bit integer whose magnitude has no positive
/// counterpart cannot be read back.
#[verifier::rlimit(100)]
#[verifier::spinoff_prover]
pub proof fn lemma_literal_round_trip(d: Dialect, lit: Literal)
    requires
        !(lit@ is Float),
        !(lit@ is Double),
        !(lit@ is Numeric),
        !(lit@ is ByteArray),
        !(lit@ is Blob),
        lit@ matches LiteralV::Integer(n) ==> n > i64::MIN,
    ensures
        spec_literal(d, spec_literal_bytes(lit@), 0) == Some(
            (spec_literal_bytes(lit@).len() as int, lit@),
        ),
{
    reveal_strlit("true");
    reveal_strlit("false");
    reveal_strlit("null");
    reveal_strlit("current_timestamp");
    reveal_strlit("current_date");
    reveal_strlit("current_time");
    reveal_strlit("NULL");
    reveal_strlit("TRUE");
    reveal_strlit("FALSE");
    reveal_strlit("CURRENT_TIME");
    reveal_strlit("CURRENT_DATE");
    reveal_strlit("CURRENT_TIMESTAMP");
    reveal_strlit("e'\\x");
    reveal_strlit("b'");
    let s = spec_literal_bytes(lit@);
    match lit@ {
        LiteralV::Null => {
            assert(s =~= kw_bytes("NULL"@));
            assert(s[0] == 'N' as u8);
            lemma_skip_to_keywords(d, s, 0);
            lemma_kw_matches(s, 0, "NULL"@, "null"@);
        },
        LiteralV::Boolean(v) => {
            if v {
                assert(s =~= kw_bytes("TRUE"@));
                assert(fold_byte(s[0]) == 0x74 && fold_byte(s[1]) == 0x72 && fold_byte(s[2])
                    == 0x75 && fold_byte(s[3]) == 0x65);
                lemma_boolean_true_any_case(d, s, 0);
            } else {
                assert(s =~= kw_bytes("FALSE"@));
                assert(fold_byte(s[0]) == 0x66 && fold_byte(s[1]) == 0x61 && fold_byte(s[2])
                    == 0x6c && fold_byte(s[3]) == 0x73 && fold_byte(s[4]) == 0x65);
                lemma_boolean_false_any_case(d, s, 0);
            }
        },
        LiteralV::CurrentTime => {
            assert(s =~= kw_bytes("CURRENT_TIME"@));
            lemma_skip_to_keywords(d, s, 0);
            lemma_tag_fails(s, 0, "null"@);
            lemma_tag_short(s, 0, "current_timestamp"@);
            assert(spec_tag_nc(s, 0, "current_date"@) is None) by {
                assert(!byte_matches_char(s[8], ("current_date"@)[8]));
                assert(!(forall|j: int|
                    0 <= j < ("current_date"@).len() ==> byte_matches_char(
                        s[0 + j],
                        #[trigger] ("current_date"@)[j],
                    )));
            }
            lemma_kw_matches(s, 0, "CURRENT_TIME"@, "current_time"@);
        },
        LiteralV::CurrentDate => {
            assert(s =~= kw_bytes("CURRENT_DATE"@));
            lemma_skip_to_keywords(d, s, 0);
            lemma_tag_fails(s, 0, "null"@);
            lemma_tag_short(s, 0, "current_timestamp"@);
            lemma_kw_matches(s, 0, "CURRENT_DATE"@, "current_date"@);
        },
        LiteralV::CurrentTimestamp => {
            assert(s =~= kw_bytes("CURRENT_TIMESTAMP"@));
            lemma_skip_to_keywords(d, s, 0);
            lemma_tag_fails(s, 0, "null"@);
            lemma_kw_matches(s, 0, "CURRENT_TIMESTAMP"@, "current_timestamp"@);
        },
        LiteralV::Integer(n) => {
            let mag: nat = if n >= 0 {
                n as nat
            } else {
                (-(n as int)) as nat
            };
            let digits = dec_digits(mag);
            lemma_dec_digits_are_digits(mag);
            lemma_dec_digits_val(mag);
            if n >= 0 {
                assert(s =~= digits);
                assert(is_digit(s[0]));
                assert(s[0] != MINUS);
                assert(forall|j: int| 0 <= j < s.len() ==> is_digit(#[trigger] s[j]));
                lemma_digit_run(s, 0, s.len() as int);
                assert(spec_float(s, 0) is None);
                assert(spec_float_literal(s, 0) is None);
                assert(digits_val(s.subrange(0, s.len() as int)) == mag) by {
                    assert(s.subrange(0, s.len() as int) =~= digits);
                }
                assert(mag <= 0x7fffffffffffffff);
                assert(spec_integer_literal(s, 0) == Some(
                    (s.len() as int, LiteralV::Integer(n)),
                ));
            } else {
                assert(s =~= seq![MINUS] + digits);
                assert(s[0] == MINUS);
                assert(!is_digit(s[0]));
                assert(forall|j: int| 1 <= j < s.len() ==> is_digit(#[trigger] s[j])) by {
                    assert(forall|j: int|
                        1 <= j < s.len() ==> s[j] == digits[j - 1]);
                }
                lemma_digit_run(s, 1, s.len() as int);
                assert(spec_float(s, 0) is None) by {
                    assert(is_digit(s[1]));
                    assert(digit_end(s, 1) == s.len());
                    lemma_digit_end(s, 1);
                }
                assert(spec_float_literal(s, 0) is None);
                assert(digits_val(s.subrange(1, s.len() as int)) == mag) by {
                    assert(s.subrange(1, s.len() as int) =~= digits);
                }
                assert(mag <= 0x7fffffffffffffff);
                assert(spec_uint(s, 1, 0x7fffffffffffffff) == Some((s.len() as int, mag)));
                assert(spec_integer_literal(s, 0) == Some(
                    (s.len() as int, LiteralV::Integer(n)),
                ));
            }
        },
        LiteralV::Placeholder(p) => {
            match p {
                ItemPlaceholder::QuestionMark => {
                    assert(s =~= seq![0x3fu8]);
                    lemma_skip_to_keywords(d, s, 0);
                    lemma_tag_fails(s, 0, "null"@);
                    lemma_tag_fails(s, 0, "current_timestamp"@);
                    lemma_tag_fails(s, 0, "current_date"@);
                    lemma_tag_fails(s, 0, "current_time"@);
                    assert(spec_byte(s, 0, 0x3f) == Some(1int));
                },
                ItemPlaceholder::DollarNumber(n) => {
                    let digits = dec_digits(n as nat);
                    lemma_dec_digits_are_digits(n as nat);
                    lemma_dec_digits_val(n as nat);
                    assert(s =~= seq![0x24u8] + digits);
                    lemma_skip_to_keywords(d, s, 0);
                    lemma_tag_fails(s, 0, "null"@);
                    lemma_tag_fails(s, 0, "current_timestamp"@);
                    lemma_tag_fails(s, 0, "current_date"@);
                    lemma_tag_fails(s, 0, "current_time"@);
                    assert(s[0] == 0x24);
                    assert(spec_byte(s, 0, 0x3f) is None);
                    assert(spec_byte(s, 0, 0x3a) is None);
                    assert(forall|j: int| 1 <= j < s.len() ==> is_digit(#[trigger] s[j])) by {
                        assert(forall|j: int| 1 <= j < s.len() ==> s[j] == digits[j - 1]);
                    }
                    lemma_digit_run(s, 1, s.len() as int);
                    assert(digits_val(s.subrange(1, s.len() as int)) == n) by {
                        assert(s.subrange(1, s.len() as int) =~= digits);
                    }
                    assert(spec_uint(s, 1, 0xffffffff) == Some((s.len() as int, n as nat)));
                },
                ItemPlaceholder::ColonNumber(n) => {
                    let digits = dec_digits(n as nat);
                    lemma_dec_digits_are_digits(n as nat);
                    lemma_dec_digits_val(n as nat);
                    assert(s =~= seq![0x3au8] + digits);
                    lemma_skip_to_keywords(d, s, 0);
                    lemma_tag_fails(s, 0, "null"@);
                    lemma_tag_fails(s, 0, "current_timestamp"@);
                    lemma_tag_fails(s, 0, "current_date"@);
                    lemma_tag_fails(s, 0, "current_time"@);
                    assert(s[0] == 0x3a);
                    assert(spec_byte(s, 0, 0x3f) is None);
                    assert(forall|j: int| 1 <= j < s.len() ==> is_digit(#[trigger] s[j])) by {
                        assert(forall|j: int| 1 <= j < s.len() ==> s[j] == digits[j - 1]);
                    }
                    lemma_digit_run(s, 1, s.len() as int);
                    assert(digits_val(s.subrange(1, s.len() as int)) == n) by {
                        assert(s.subrange(1, s.len() as int) =~= digits);
                    }
                    assert(spec_uint(s, 1, 0xffffffff) == Some((s.len() as int, n as nat)));
                },
            }
        },
        LiteralV::Str(t) => {
            lemma_string_round_trip(d, t);
        },
        LiteralV::BitVector(b) => {
            lemma_bitvector_round_trip(d, b);
        },
        _ => {
            assert(false);
        },
    }
}

/// The rendered text of a string literal reads back to the same text.
proof fn lemma_string_round_trip(d: Dialect, t: Seq<char>)
    ensures
        spec_literal(d, spec_literal_bytes(LiteralV::Str(t)), 0) == Some(
            (spec_literal_bytes(LiteralV::Str(t)).len() as int, LiteralV::Str(t)),
        ),
{
    broadcast use vstd::utf8::encode_utf8_valid_utf8;
    broadcast use vstd::utf8::encode_utf8_decode_utf8;

    let enc = vstd::utf8::encode_utf8(t);
    let s = spec_literal_bytes(LiteralV::Str(t));
    assert(s =~= seq![QUOTE] + escape_bytes(enc) + seq![QUOTE]);
    assert(s[0] == QUOTE);
    assert(!is_digit(s[0]) && s[0] != MINUS);
    lemma_no_number(s, 0);
    assert(s.len() == escape_bytes(enc).len() + 2);
    assert(s.subrange(1, 1 + escape_bytes(enc).len() as int) =~= escape_bytes(enc));
    assert(s[1 + escape_bytes(enc).len() as int] == QUOTE);
    lemma_quoted_round(s, 1, enc);
    assert(spec_string_literal(d, s, 0) == Some((s.len() as int, enc)));
    assert(vstd::utf8::valid_utf8(enc));
    assert(vstd::utf8::decode_utf8(enc) == t);
}

/// The body scanner undoes the escaping exactly when the closing quote is
/// the last byte of the input.
proof fn lemma_quoted_round(s: Seq<u8>, pos: int, b: Seq<u8>)
    requires
        0 <= pos,
        pos + escape_bytes(b).len() + 1 == s.len(),
        s.subrange(pos, pos + escape_bytes(b).len() as int) == escape_bytes(b),
        s[pos + escape_bytes(b).len() as int] == QUOTE,
    ensures
        spec_quoted_body(s, pos, QUOTE) == Some((s.len() as int, b)),
    decreases b.len(),
{
    if b.len() == 0 {
        assert(escape_bytes(b) =~= Seq::<u8>::empty());
        assert(s[pos] == QUOTE);
        assert(pos + 1 == s.len());
        assert(spec_quoted_body(s, pos, QUOTE) == Some((pos + 1, Seq::<u8>::empty())));
        assert(b =~= Seq::<u8>::empty());
    } else {
        let x = b[0];
        let rest = b.drop_first();
        assert(escape_bytes(b) == esc1(x) + escape_bytes(rest));
        let el = esc1(x).len() as int;
        let n = escape_bytes(b).len() as int;
        assert(forall|j: int| 0 <= j < n ==> s[pos + j] == escape_bytes(b)[j]);
        assert(forall|j: int| 0 <= j < el ==> escape_bytes(b)[j] == esc1(x)[j]);
        assert(forall|j: int|
            0 <= j < escape_bytes(rest).len() ==> escape_bytes(b)[el + j] == escape_bytes(
                rest,
            )[j]);
        assert(s.subrange(pos + el, pos + el + escape_bytes(rest).len() as int) =~= escape_bytes(
            rest,
        ));
        assert(s[pos + el + escape_bytes(rest).len() as int] == QUOTE);
        lemma_quoted_round(s, pos + el, rest);
        assert(s[pos + 0] == escape_bytes(b)[0]);
        assert(escape_bytes(b)[0] == esc1(x)[0]);
        assert(esc1(x)[0] == x);
        if x == QUOTE || x == BACKSLASH {
            assert(s[pos + 1] == escape_bytes(b)[1]);
            assert(escape_bytes(b)[1] == esc1(x)[1]);
            assert(esc1(x)[1] == x);
            assert(el == 2);
            assert(s[pos] == x && s[pos + 1] == x);
            if x == QUOTE {
                assert(pos + 1 < s.len());
                assert(spec_quoted_body(s, pos, QUOTE) == (match spec_quoted_body(
                    s,
                    pos + 2,
                    QUOTE,
                ) {
                    Some((e, bb)) => Some((e, seq![QUOTE] + bb)),
                    None => None::<(int, Seq<u8>)>,
                }));
                assert(seq![QUOTE] + rest =~= b);
            } else {
                assert(s[pos] != QUOTE);
                assert(pos + 1 < s.len());
                assert(seq![s[pos + 1]] + rest =~= b);
            }
        } else {
            assert(el == 1);
            assert(s[pos] == x);
            assert(x != QUOTE && x != BACKSLASH);
            assert(seq![s[pos]] + rest =~= b);
        }
    }
}


/// One unpacked bit is the byte's bit in that place.
proof fn lemma_one_bit(b: Seq<u8>, k: int, j: int)
    requires
        0 <= k < b.len(),
        0 <= j < 8,
    ensures
        crate::literal::bit_val(crate::literal::spec_bits_of_bytes(b), 8 * k + j) == ((
        b[k] as int) / crate::ieee::pow2((7 - j) as nat)) % 2,
{
    let bits = crate::literal::spec_bits_of_bytes(b);
    let i = 8 * k + j;
    assert(bits.len() == b.len() * 8);
    assert(0 <= 8 * k + j < b.len() * 8) by (nonlinear_arith)
        requires
            0 <= k < b.len(),
            0 <= j < 8,
    ;
    assert(0 <= i < bits.len());
    vstd::arithmetic::div_mod::lemma_fundamental_div_mod_converse_div(i, 8, k, j);
    vstd::arithmetic::div_mod::lemma_fundamental_div_mod_converse_mod(i, 8, k, j);
    assert(bits[i] == crate::literal::byte_bit(b[k], j));
    let q = ((b[k] as int) / crate::ieee::pow2((7 - j) as nat)) % 2;
    assert(0 <= q < 2) by {
        crate::ieee::lemma_pow2_pos((7 - j) as nat);
        vstd::arithmetic::div_mod::lemma_mod_bound(
            (b[k] as int) / crate::ieee::pow2((7 - j) as nat),
            2,
        );
    }
    if bits[i] {
        assert(q == 1);
    } else {
        assert(q != 1);
    }
}
/// One byte is the weighted sum of its eight bits.
proof fn lemma_byte_bits(x: u8)
    ensures
        x == 128 * ((x / 128) % 2) + 64 * ((x / 64) % 2) + 32 * ((x / 32) % 2) + 16 * ((x / 16)
            % 2) + 8 * ((x / 8) % 2) + 4 * ((x / 4) % 2) + 2 * ((x / 2) % 2) + (x % 2),
{
    assert(x == 128 * ((x / 128) % 2) + 64 * ((x / 64) % 2) + 32 * ((x / 32) % 2) + 16 * ((x / 16)
        % 2) + 8 * ((x / 8) % 2) + 4 * ((x / 4) % 2) + 2 * ((x / 2) % 2) + (x % 2))
        by (bit_vector);
}

/// Packing the unpacked bits of a byte string gives the bytes back.
proof fn lemma_pack_unpack(b: Seq<u8>)
    ensures
        crate::literal::spec_bytes_of_bits(crate::literal::spec_bits_of_bytes(b)) == b,
{
    let bits = crate::literal::spec_bits_of_bytes(b);
    let packed = crate::literal::spec_bytes_of_bits(bits);
    assert(bits.len() == b.len() * 8);
    assert((b.len() * 8 + 7) / 8 == b.len()) by (nonlinear_arith);
    assert(packed.len() == b.len());
    assert forall|k: int| 0 <= k < b.len() implies packed[k] == b[k] by {
        crate::ieee::lemma_pow2_54();
        reveal_with_fuel(crate::ieee::pow2, 9);
        assert(crate::ieee::pow2(7) == 128 && crate::ieee::pow2(6) == 64 && crate::ieee::pow2(5)
            == 32 && crate::ieee::pow2(4) == 16 && crate::ieee::pow2(3) == 8 && crate::ieee::pow2(
            2,
        ) == 4 && crate::ieee::pow2(1) == 2 && crate::ieee::pow2(0) == 1);
        lemma_one_bit(b, k, 0);
        lemma_one_bit(b, k, 1);
        lemma_one_bit(b, k, 2);
        lemma_one_bit(b, k, 3);
        lemma_one_bit(b, k, 4);
        lemma_one_bit(b, k, 5);
        lemma_one_bit(b, k, 6);
        lemma_one_bit(b, k, 7);
        lemma_byte_bits(b[k]);
        let x = b[k] as int;
        assert(packed[k] as int == 128 * crate::literal::bit_val(bits, 8 * k) + 64
            * crate::literal::bit_val(bits, 8 * k + 1) + 32 * crate::literal::bit_val(
            bits,
            8 * k + 2,
        ) + 16 * crate::literal::bit_val(bits, 8 * k + 3) + 8 * crate::literal::bit_val(
            bits,
            8 * k + 4,
        ) + 4 * crate::literal::bit_val(bits, 8 * k + 5) + 2 * crate::literal::bit_val(
            bits,
            8 * k + 6,
        ) + crate::literal::bit_val(bits, 8 * k + 7));
    }
    assert(packed =~= b);
}

/// The rendered text of a bit vector reads back to the same bytes.
proof fn lemma_bitvector_round_trip(d: Dialect, b: Seq<u8>)
    ensures
        spec_literal(d, spec_literal_bytes(LiteralV::BitVector(b)), 0) == Some(
            (spec_literal_bytes(LiteralV::BitVector(b)).len() as int, LiteralV::BitVector(b)),
        ),
{
    reveal_strlit("e'\\x");
    reveal_strlit("b'");
    reveal_strlit("B'");
    let bits = crate::literal::spec_bits_of_bytes(b);
    let body = crate::literal::bits01(bits);
    let s = spec_literal_bytes(LiteralV::BitVector(b));
    let n = bits.len() as int;
    assert(s =~= kw_bytes("B'"@) + body + seq![QUOTE]);
    assert(s.len() == n + 3);
    assert(s[0] == 'B' as u8);
    assert(s[1] == '\'' as u8);
    assert(s[0] == 0x42 && s[1] == 0x27);
    assert(!is_digit(s[0]) && s[0] != MINUS && s[0] != QUOTE && s[0] != DQUOTE);
    lemma_no_number(s, 0);
    lemma_no_string(d, s, 0);
    lemma_tag_fails(s, 0, "e'\\x"@);
    assert(forall|j: int| 0 <= j < n ==> s[2 + j] == #[trigger] body[j]);
    assert(forall|j: int| 0 <= j < n ==> ((#[trigger] s[2 + j]) == 0x30 || s[2 + j] == 0x31));
    assert(s[n + 2] == QUOTE);
    // The opening tag matches.
    assert(vstd::utf8::is_ascii_chars("b'"@));
    assert(spec_tag_nc(s, 0, "b'"@) == Some(2int)) by {
        assert forall|j: int| 0 <= j < 2 implies byte_matches_char(
            s[0 + j],
            #[trigger] ("b'"@)[j],
        ) by {
            assert(("b'"@)[0] == 'b' && ("b'"@)[1] == '\'');
        }
    }
    // The closing quote is found exactly at the end of the digits.
    crate::dialect::lemma_find_byte(s, 2, QUOTE);
    let fb = crate::dialect::find_byte(s, 2, QUOTE);
    match fb {
        Some(e) => {
            if e < n + 2 {
                assert(s[e] == 0x30 || s[e] == 0x31);
                assert(false);
            } else if e > n + 2 {
                assert(s[n + 2] == QUOTE && 2 <= n + 2 < e);
                assert(false);
            }
        },
        None => {
            assert(s[n + 2] == QUOTE);
            assert(false);
        },
    }
    assert(fb == Some(n + 2));
    assert(spec_bitvec_literal(s, 0) == Some(
        (n + 3, Seq::new(n as nat, |j: int| s[2 + j] == 0x31)),
    ));
    assert(Seq::new(n as nat, |j: int| s[2 + j] == 0x31) =~= bits) by {
        assert forall|j: int| 0 <= j < n implies (s[2 + j] == 0x31) == bits[j] by {
            assert(s[2 + j] == body[j]);
        }
    }
    lemma_pack_unpack(b);
}

} // verus!
