//! The SQL scalar type model and its dialect-sensitive grammar: one
//! ordered, case-insensitive alternation over type keywords, where the
//! order is a correctness requirement — `tinyint` stands before `int`,
//! `varchar` before `char`, `timestamp … with time zone` before the plain
//! form.

use vstd::prelude::*;
use crate::dialect::Dialect;
use crate::lexical::{byte_tag, dec_digits, digits_val, kw_bytes, parse_uint, push_bytes, push_dec_u64, push_str_bytes, spec_byte, spec_digit1, spec_tag_nc, spec_uint, spec_ws1, tag_nc, ws0, ws1, ws_end};
use crate::literal::{spec_value_list, value_list, Literal, LiteralV};

verus! {

/// Whether an integer type carries its optional `UNSIGNED` marker.
pub enum Sign {
    Unsigned,
    Signed,
}

/// A SQL column type specifier.
#[derive(Clone, Debug, PartialEq, Eq, Hash)]
pub enum SqlType {
    Bool,
    Char(Option<u16>),
    Varchar(Option<u16>),
    Int(Option<u16>),
    UnsignedInt(Option<u16>),
    Bigint(Option<u16>),
    UnsignedBigint(Option<u16>),
    Tinyint(Option<u16>),
    UnsignedTinyint(Option<u16>),
    Smallint(Option<u16>),
    UnsignedSmallint(Option<u16>),
    Blob,
    Longblob,
    Mediumblob,
    Tinyblob,
    Double,
    Float,
    Real,
    Numeric(Option<(u16, Option<u8>)>),
    Tinytext,
    Mediumtext,
    Longtext,
    Text,
    Date,
    DateTime(Option<u16>),
    Time,
    Timestamp,
    TimestampTz,
    Binary(Option<u16>),
    Varbinary(u16),
    Enum(Vec<Literal>),
    Decimal(u8, u8),
    Json,
    Jsonb,
    ByteArray,
    MacAddr,
    Inet,
    Uuid,
    Bit(Option<u16>),
    Varbit(Option<u16>),
    Serial,
    BigSerial,
}

/// The mathematical shape of a type: the enumeration list as a sequence.
pub enum SqlTypeV {
    Bool,
    Char(Option<u16>),
    Varchar(Option<u16>),
    Int(Option<u16>),
    UnsignedInt(Option<u16>),
    Bigint(Option<u16>),
    UnsignedBigint(Option<u16>),
    Tinyint(Option<u16>),
    UnsignedTinyint(Option<u16>),
    Smallint(Option<u16>),
    UnsignedSmallint(Option<u16>),
    Blob,
    Longblob,
    Mediumblob,
    Tinyblob,
    Double,
    Float,
    Real,
    Numeric(Option<(u16, Option<u8>)>),
    Tinytext,
    Mediumtext,
    Longtext,
    Text,
    Date,
    DateTime(Option<u16>),
    Time,
    Timestamp,
    TimestampTz,
    Binary(Option<u16>),
    Varbinary(u16),
    Enum(Seq<LiteralV>),
    Decimal(u8, u8),
    Json,
    Jsonb,
    ByteArray,
    MacAddr,
    Inet,
    Uuid,
    Bit(Option<u16>),
    Varbit(Option<u16>),
    Serial,
    BigSerial,
}

impl View for SqlType {
    type V = SqlTypeV;

    open spec fn view(&self) -> SqlTypeV {
        match self {
            SqlType::Bool => SqlTypeV::Bool,
            SqlType::Char(l) => SqlTypeV::Char(*l),
            SqlType::Varchar(l) => SqlTypeV::Varchar(*l),
            SqlType::Int(l) => SqlTypeV::Int(*l),
            SqlType::UnsignedInt(l) => SqlTypeV::UnsignedInt(*l),
            SqlType::Bigint(l) => SqlTypeV::Bigint(*l),
            SqlType::UnsignedBigint(l) => SqlTypeV::UnsignedBigint(*l),
            SqlType::Tinyint(l) => SqlTypeV::Tinyint(*l),
            SqlType::UnsignedTinyint(l) => SqlTypeV::UnsignedTinyint(*l),
            SqlType::Smallint(l) => SqlTypeV::Smallint(*l),
            SqlType::UnsignedSmallint(l) => SqlTypeV::UnsignedSmallint(*l),
            SqlType::Blob => SqlTypeV::Blob,
            SqlType::Longblob => SqlTypeV::Longblob,
            SqlType::Mediumblob => SqlTypeV::Mediumblob,
            SqlType::Tinyblob => SqlTypeV::Tinyblob,
            SqlType::Double => SqlTypeV::Double,
            SqlType::Float => SqlTypeV::Float,
            SqlType::Real => SqlTypeV::Real,
            SqlType::Numeric(p) => SqlTypeV::Numeric(*p),
            SqlType::Tinytext => SqlTypeV::Tinytext,
            SqlType::Mediumtext => SqlTypeV::Mediumtext,
            SqlType::Longtext => SqlTypeV::Longtext,
            SqlType::Text => SqlTypeV::Text,
            SqlType::Date => SqlTypeV::Date,
            SqlType::DateTime(l) => SqlTypeV::DateTime(*l),
            SqlType::Time => SqlTypeV::Time,
            SqlType::Timestamp => SqlTypeV::Timestamp,
            SqlType::TimestampTz => SqlTypeV::TimestampTz,
            SqlType::Binary(l) => SqlTypeV::Binary(*l),
            SqlType::Varbinary(l) => SqlTypeV::Varbinary(*l),
            SqlType::Enum(vs) => SqlTypeV::Enum(lits_view(vs@)),
            SqlType::Decimal(m, d) => SqlTypeV::Decimal(*m, *d),
            SqlType::Json => SqlTypeV::Json,
            SqlType::Jsonb => SqlTypeV::Jsonb,
            SqlType::ByteArray => SqlTypeV::ByteArray,
            SqlType::MacAddr => SqlTypeV::MacAddr,
            SqlType::Inet => SqlTypeV::Inet,
            SqlType::Uuid => SqlTypeV::Uuid,
            SqlType::Bit(l) => SqlTypeV::Bit(*l),
            SqlType::Varbit(l) => SqlTypeV::Varbit(*l),
            SqlType::Serial => SqlTypeV::Serial,
            SqlType::BigSerial => SqlTypeV::BigSerial,
        }
    }
}

/// The shapes of a literal sequence, element by element.
pub open spec fn lits_view(s: Seq<Literal>) -> Seq<LiteralV>
    decreases s,
{
    if s.len() == 0 {
        seq![]
    } else {
        seq![s[0]@] + lits_view(s.drop_first())
    }
}

pub proof fn lemma_lits_view_index(s: Seq<Literal>)
    ensures
        lits_view(s).len() == s.len(),
        forall|j: int| 0 <= j < s.len() ==> lits_view(s)[j] == (#[trigger] s[j])@,
    decreases s.len(),
{
    if s.len() > 0 {
        lemma_lits_view_index(s.drop_first());
        assert(forall|j: int| 1 <= j < s.len() ==> s.drop_first()[j - 1] == #[trigger] s[j]);
        assert(forall|j: int|
            1 <= j < s.len() ==> lits_view(s)[j] == lits_view(s.drop_first())[j - 1]);
    }
}

/// Every literal in the sequence is renderable.
pub open spec fn lits_renderable(s: Seq<LiteralV>) -> bool
    decreases s,
{
    if s.len() == 0 {
        true
    } else {
        crate::literal::spec_renderable(s[0]) && lits_renderable(s.drop_first())
    }
}

pub proof fn lemma_lits_renderable_index(v: Seq<Literal>, m: Seq<LiteralV>)
    requires
        m == lits_view(v),
        lits_renderable(m),
    ensures
        m.len() == v.len(),
        forall|q: int|
            0 <= q < v.len() ==> (#[trigger] v[q])@ == m[q] && crate::literal::spec_renderable(
                v[q]@,
            ),
    decreases v.len(),
{
    if v.len() > 0 {
        assert(m[0] == v[0]@);
        assert(m.drop_first() =~= lits_view(v.drop_first()));
        lemma_lits_renderable_index(v.drop_first(), m.drop_first());
        assert(forall|q: int| 1 <= q < v.len() ==> v.drop_first()[q - 1] == #[trigger] v[q]);
        assert(forall|q: int| 1 <= q < m.len() ==> m.drop_first()[q - 1] == #[trigger] m[q]);
    }
}

/// A precision pair `(m[, d])` in parentheses, both bounded by a byte; a
/// wider value is a parse failure, never a truncation.
pub open spec fn spec_precision_helper(s: Seq<u8>, pos: int) -> Option<(int, (u8, Option<u8>))> {
    match spec_digit1(s, pos) {
        Some(e1) => {
            let m = digits_val(s.subrange(pos, e1));
            if m > 255 {
                None
            } else {
                match spec_byte(s, e1, 0x2c) {
                    Some(pc) => {
                        let w = ws_end(s, pc);
                        match spec_digit1(s, w) {
                            Some(e2) => {
                                let d = digits_val(s.subrange(w, e2));
                                if d > 255 {
                                    None
                                } else {
                                    Some((e2, (m as u8, Some(d as u8))))
                                }
                            },
                            None => Some((e1, (m as u8, None))),
                        }
                    },
                    None => Some((e1, (m as u8, None))),
                }
            }
        },
        None => None,
    }
}

fn precision_helper(i: &[u8], pos: usize) -> (r: Option<(usize, (u8, Option<u8>))>)
    requires
        pos <= i@.len(),
    ensures
        match r {
            Some((p2, v)) => spec_precision_helper(i@, pos as int) == Some((p2 as int, v)) && pos
                < p2 <= i@.len(),
            None => spec_precision_helper(i@, pos as int) is None,
        },
{
    let (e1, m) = match parse_uint(i, pos, 255) {
        Some(x) => x,
        None => {
            proof {
                if spec_digit1(i@, pos as int) is Some {
                    crate::lexical::lemma_digit_end(i@, pos as int);
                }
            }
            return None;
        },
    };
    if let Some(pc) = byte_tag(i, e1, 0x2c) {
        let w = ws0(i, pc);
        if pos < i.len() && w < i.len() && 0x30 <= i[w] && i[w] <= 0x39 {
            match parse_uint(i, w, 255) {
                Some((e2, d)) => {
                    return Some((e2, (m as u8, Some(d as u8))));
                },
                None => {
                    proof {
                        crate::lexical::lemma_digit_end(i@, w as int);
                    }
                    return None;
                },
            }
        }
    }
    Some((e1, (m as u8, None)))
}

/// `(m[, d])` with single-byte bounds.
pub open spec fn spec_precision(s: Seq<u8>, pos: int) -> Option<(int, (u8, Option<u8>))> {
    match spec_byte(s, pos, 0x28) {
        Some(p1) => match spec_precision_helper(s, p1) {
            Some((e, v)) => match spec_byte(s, e, 0x29) {
                Some(p2) => Some((p2, v)),
                None => None,
            },
            None => None,
        },
        None => None,
    }
}

/// Reads a parenthesized precision-and-scale pair; a value above 255
/// fails to parse rather than truncating.
pub fn precision(i: &[u8], pos: usize) -> (r: Option<(usize, (u8, Option<u8>))>)
    requires
        pos <= i@.len(),
    ensures
        match r {
            Some((p2, v)) => spec_precision(i@, pos as int) == Some((p2 as int, v)) && pos < p2
                <= i@.len(),
            None => spec_precision(i@, pos as int) is None,
        },
{
    let p1 = match byte_tag(i, pos, 0x28) {
        Some(p) => p,
        None => {
            return None;
        },
    };
    let (e, v) = match precision_helper(i, p1) {
        Some(x) => x,
        None => {
            return None;
        },
    };
    match byte_tag(i, e, 0x29) {
        Some(p2) => Some((p2, v)),
        None => None,
    }
}

/// The inner part of a numeric precision: a two-byte precision, optional
/// whitespace, then an optional comma and single-byte scale.
pub open spec fn spec_numeric_precision_inner(s: Seq<u8>, pos: int) -> Option<
    (int, (u16, Option<u8>)),
> {
    match spec_digit1(s, pos) {
        Some(e1) => {
            let m = digits_val(s.subrange(pos, e1));
            if m > 0xffff {
                None
            } else {
                let w0 = ws_end(s, e1);
                match spec_byte(s, w0, 0x2c) {
                    Some(pc) => {
                        let w = ws_end(s, pc);
                        match spec_digit1(s, w) {
                            Some(e2) => {
                                let d = digits_val(s.subrange(w, e2));
                                if d > 255 {
                                    None
                                } else {
                                    Some((e2, (m as u16, Some(d as u8))))
                                }
                            },
                            None => Some((e1, (m as u16, None))),
                        }
                    },
                    None => Some((e1, (m as u16, None))),
                }
            }
        },
        None => None,
    }
}

pub fn numeric_precision_inner(i: &[u8], pos: usize) -> (r: Option<(usize, (u16, Option<u8>))>)
    requires
        pos <= i@.len(),
    ensures
        match r {
            Some((p2, v)) => spec_numeric_precision_inner(i@, pos as int) == Some((p2 as int, v))
                && pos < p2 <= i@.len(),
            None => spec_numeric_precision_inner(i@, pos as int) is None,
        },
{
    let (e1, m) = match parse_uint(i, pos, 0xffff) {
        Some(x) => x,
        None => {
            proof {
                if spec_digit1(i@, pos as int) is Some {
                    crate::lexical::lemma_digit_end(i@, pos as int);
                }
            }
            return None;
        },
    };
    let w0 = ws0(i, e1);
    if let Some(pc) = byte_tag(i, w0, 0x2c) {
        let w = ws0(i, pc);
        if w < i.len() && 0x30 <= i[w] && i[w] <= 0x39 {
            match parse_uint(i, w, 255) {
                Some((e2, d)) => {
                    return Some((e2, (m as u16, Some(d as u8))));
                },
                None => {
                    proof {
                        crate::lexical::lemma_digit_end(i@, w as int);
                    }
                    return None;
                },
            }
        }
    }
    Some((e1, (m as u16, None)))
}

/// `(m[, d])` with a two-byte precision.
pub open spec fn spec_numeric_precision(s: Seq<u8>, pos: int) -> Option<(int, (u16, Option<u8>))> {
    match spec_byte(s, pos, 0x28) {
        Some(p1) => match spec_numeric_precision_inner(s, p1) {
            Some((e, v)) => match spec_byte(s, e, 0x29) {
                Some(p2) => Some((p2, v)),
                None => None,
            },
            None => None,
        },
        None => None,
    }
}

/// Reads a parenthesized numeric precision; a precision above the 16-bit
/// range fails to parse rather than truncating.
pub fn numeric_precision(i: &[u8], pos: usize) -> (r: Option<(usize, (u16, Option<u8>))>)
    requires
        pos <= i@.len(),
    ensures
        match r {
            Some((p2, v)) => spec_numeric_precision(i@, pos as int) == Some((p2 as int, v)) && pos
                < p2 <= i@.len(),
            None => spec_numeric_precision(i@, pos as int) is None,
        },
{
    let p1 = match byte_tag(i, pos, 0x28) {
        Some(p) => p,
        None => {
            return None;
        },
    };
    let (e, v) = match numeric_precision_inner(i, p1) {
        Some(x) => x,
        None => {
            return None;
        },
    };
    match byte_tag(i, e, 0x29) {
        Some(p2) => Some((p2, v)),
        None => None,
    }
}

/// A parenthesized run of digits read as a 16-bit length; out of range,
/// the whole form fails and nothing is consumed.
pub open spec fn spec_delim_u16(s: Seq<u8>, pos: int) -> Option<(int, u16)> {
    match spec_byte(s, pos, 0x28) {
        Some(p1) => match spec_uint(s, p1, 0xffff) {
            Some((e, v)) => match spec_byte(s, e, 0x29) {
                Some(p2) => Some((p2, v as u16)),
                None => None,
            },
            None => None,
        },
        None => None,
    }
}

fn delim_u16(i: &[u8], pos: usize) -> (r: Option<(usize, u16)>)
    requires
        pos <= i@.len(),
    ensures
        match r {
            Some((p2, v)) => spec_delim_u16(i@, pos as int) == Some((p2 as int, v)) && pos < p2
                <= i@.len(),
            None => spec_delim_u16(i@, pos as int) is None,
        },
{
    let p1 = match byte_tag(i, pos, 0x28) {
        Some(p) => p,
        None => {
            return None;
        },
    };
    let (e, v) = match parse_uint(i, p1, 0xffff) {
        Some(x) => x,
        None => {
            return None;
        },
    };
    match byte_tag(i, e, 0x29) {
        Some(p2) => Some((p2, v as u16)),
        None => None,
    }
}

/// A parenthesized run of digits whose value is recognized and discarded.
pub open spec fn spec_delim_digit(s: Seq<u8>, pos: int) -> Option<int> {
    match spec_byte(s, pos, 0x28) {
        Some(p1) => match spec_digit1(s, p1) {
            Some(e) => match spec_byte(s, e, 0x29) {
                Some(p2) => Some(p2),
                None => None,
            },
            None => None,
        },
        None => None,
    }
}

fn delim_digit(i: &[u8], pos: usize) -> (r: Option<usize>)
    requires
        pos <= i@.len(),
    ensures
        match r {
            Some(p2) => spec_delim_digit(i@, pos as int) == Some(p2 as int) && pos < p2
                <= i@.len(),
            None => spec_delim_digit(i@, pos as int) is None,
        },
{
    let p1 = match byte_tag(i, pos, 0x28) {
        Some(p) => p,
        None => {
            return None;
        },
    };
    let e = match crate::lexical::digit1(i, p1) {
        Some(e) => e,
        None => {
            return None;
        },
    };
    match byte_tag(i, e, 0x29) {
        Some(p2) => Some(p2),
        None => None,
    }
}

/// An optional `UNSIGNED` or `SIGNED` marker; absent means signed.
pub open spec fn spec_opt_signed(s: Seq<u8>, pos: int) -> (int, bool) {
    match spec_tag_nc(s, pos, "unsigned"@) {
        Some(e) => (e, true),
        None => match spec_tag_nc(s, pos, "signed"@) {
            Some(e) => (e, false),
            None => (pos, false),
        },
    }
}

fn opt_signed(i: &[u8], pos: usize) -> (r: (usize, bool))
    requires
        pos <= i@.len(),
    ensures
        (r.0 as int, r.1) == spec_opt_signed(i@, pos as int),
        pos <= r.0 <= i@.len(),
{
    if let Some(e) = tag_nc(i, pos, "unsigned") {
        return (e, true);
    }
    if let Some(e) = tag_nc(i, pos, "signed") {
        return (e, false);
    }
    (pos, false)
}

/// The shared integer-type shape: keyword, optional parenthesized width,
/// whitespace, optional sign marker.
pub open spec fn spec_int_type(s: Seq<u8>, pos: int, kw: Seq<char>) -> Option<
    (int, Option<u16>, bool),
> {
    match spec_tag_nc(s, pos, kw) {
        Some(p1) => {
            let (p2, len) = match spec_delim_u16(s, p1) {
                Some((e, v)) => (e, Some(v)),
                None => (p1, None::<u16>),
            };
            let w = ws_end(s, p2);
            let (p3, unsigned) = spec_opt_signed(s, w);
            Some((p3, len, unsigned))
        },
        None => None,
    }
}

fn int_type(i: &[u8], pos: usize, kw: &str) -> (r: Option<(usize, Option<u16>, bool)>)
    requires
        pos <= i@.len(),
    ensures
        match r {
            Some((p2, len, unsigned)) => spec_int_type(i@, pos as int, kw@) == Some(
                (p2 as int, len, unsigned),
            ) && pos <= p2 <= i@.len(),
            None => spec_int_type(i@, pos as int, kw@) is None,
        },
{
    let p1 = match tag_nc(i, pos, kw) {
        Some(p) => p,
        None => {
            return None;
        },
    };
    let (p2, len) = match delim_u16(i, p1) {
        Some((e, v)) => (e, Some(v)),
        None => (p1, None),
    };
    let w = ws0(i, p2);
    let (p3, unsigned) = opt_signed(i, w);
    Some((p3, len, unsigned))
}

/// An optional `WITHOUT TIME ZONE` clause, recognized and discarded.
pub open spec fn spec_opt_without_tz(s: Seq<u8>, pos: int) -> int {
    match spec_ws1(s, pos) {
        Some(w1) => match spec_tag_nc(s, w1, "without"@) {
            Some(a) => match spec_ws1(s, a) {
                Some(w2) => match spec_tag_nc(s, w2, "time"@) {
                    Some(b) => match spec_ws1(s, b) {
                        Some(w3) => match spec_tag_nc(s, w3, "zone"@) {
                            Some(c) => c,
                            None => pos,
                        },
                        None => pos,
                    },
                    None => pos,
                },
                None => pos,
            },
            None => pos,
        },
        None => pos,
    }
}

fn opt_without_tz(i: &[u8], pos: usize) -> (r: usize)
    requires
        pos <= i@.len(),
    ensures
        r as int == spec_opt_without_tz(i@, pos as int),
        pos <= r <= i@.len(),
{
    if let Some(w1) = ws1(i, pos) {
        if let Some(a) = tag_nc(i, w1, "without") {
            if let Some(w2) = ws1(i, a) {
                if let Some(b) = tag_nc(i, w2, "time") {
                    if let Some(w3) = ws1(i, b) {
                        if let Some(c) = tag_nc(i, w3, "zone") {
                            return c;
                        }
                    }
                }
            }
        }
    }
    pos
}

/// The `WITH TIME ZONE` clause after mandatory whitespace.
pub open spec fn spec_with_tz(s: Seq<u8>, pos: int) -> Option<int> {
    match spec_ws1(s, pos) {
        Some(w1) => match spec_tag_nc(s, w1, "with"@) {
            Some(a) => match spec_ws1(s, a) {
                Some(w2) => match spec_tag_nc(s, w2, "time"@) {
                    Some(b) => match spec_ws1(s, b) {
                        Some(w3) => spec_tag_nc(s, w3, "zone"@),
                        None => None,
                    },
                    None => None,
                },
                None => None,
            },
            None => None,
        },
        None => None,
    }
}

fn with_tz(i: &[u8], pos: usize) -> (r: Option<usize>)
    requires
        pos <= i@.len(),
    ensures
        match r {
            Some(p2) => spec_with_tz(i@, pos as int) == Some(p2 as int) && pos <= p2 <= i@.len(),
            None => spec_with_tz(i@, pos as int) is None,
        },
{
    if let Some(w1) = ws1(i, pos) {
        if let Some(a) = tag_nc(i, w1, "with") {
            if let Some(w2) = ws1(i, a) {
                if let Some(b) = tag_nc(i, w2, "time") {
                    if let Some(w3) = ws1(i, b) {
                        return tag_nc(i, w3, "zone");
                    }
                }
            }
        }
    }
    None
}

/// `DECIMAL` or `NUMERIC` with an optional byte-sized precision pair; the
/// precision defaults to 32 and the scale to 0.
pub open spec fn spec_decimal_or_numeric(s: Seq<u8>, pos: int) -> Option<(int, SqlTypeV)> {
    let t = if spec_tag_nc(s, pos, "decimal"@) is Some {
        spec_tag_nc(s, pos, "decimal"@)
    } else {
        spec_tag_nc(s, pos, "numeric"@)
    };
    match t {
        Some(p1) => {
            let (p2, m, d) = match spec_precision(s, p1) {
                Some((e, (m, Some(d)))) => (e, m, d),
                Some((e, (m, None))) => (e, m, 0u8),
                None => (p1, 32u8, 0u8),
            };
            Some((ws_end(s, p2), SqlTypeV::Decimal(m, d)))
        },
        None => None,
    }
}

fn decimal_or_numeric(i: &[u8], pos: usize) -> (r: Option<(usize, SqlType)>)
    requires
        pos <= i@.len(),
    ensures
        match r {
            Some((p2, v)) => spec_decimal_or_numeric(i@, pos as int) == Some((p2 as int, v@))
                && pos < p2 <= i@.len(),
            None => spec_decimal_or_numeric(i@, pos as int) is None,
        },
{
    proof {
        reveal_strlit("decimal");
        reveal_strlit("numeric");
    }
    let p1 = if let Some(p) = tag_nc(i, pos, "decimal") {
        p
    } else if let Some(p) = tag_nc(i, pos, "numeric") {
        p
    } else {
        return None;
    };
    let (p2, m, d) = match precision(i, p1) {
        Some((e, (m, Some(d)))) => (e, m, d),
        Some((e, (m, None))) => (e, m, 0),
        None => (p1, 32, 0),
    };
    Some((ws0(i, p2), SqlType::Decimal(m, d)))
}

/// The first half of the ordered type alternation, exactly in grammar
/// order: the longer keyword always stands before its prefix.
pub open spec fn spec_type_first(d: Dialect, s: Seq<u8>, pos: int) -> Option<(int, SqlTypeV)> {
    if spec_int_type(s, pos, "tinyint"@) is Some {
        let (e, len, u) = spec_int_type(s, pos, "tinyint"@)->Some_0;
        Some((e, if u { SqlTypeV::UnsignedTinyint(len) } else { SqlTypeV::Tinyint(len) }))
    } else if spec_int_type(s, pos, "smallint"@) is Some {
        let (e, len, u) = spec_int_type(s, pos, "smallint"@)->Some_0;
        Some((e, if u { SqlTypeV::UnsignedSmallint(len) } else { SqlTypeV::Smallint(len) }))
    } else if spec_int_type(s, pos, "integer"@) is Some {
        let (e, len, u) = spec_int_type(s, pos, "integer"@)->Some_0;
        Some((e, if u { SqlTypeV::UnsignedInt(len) } else { SqlTypeV::Int(len) }))
    } else if spec_int_type(s, pos, "int"@) is Some {
        let (e, len, u) = spec_int_type(s, pos, "int"@)->Some_0;
        Some((e, if u { SqlTypeV::UnsignedInt(len) } else { SqlTypeV::Int(len) }))
    } else if spec_int_type(s, pos, "bigint"@) is Some {
        let (e, len, u) = spec_int_type(s, pos, "bigint"@)->Some_0;
        Some((e, if u { SqlTypeV::UnsignedBigint(len) } else { SqlTypeV::Bigint(len) }))
    } else if spec_tag_nc(s, pos, "boolean"@) is Some {
        Some((spec_tag_nc(s, pos, "boolean"@)->Some_0, SqlTypeV::Bool))
    } else if spec_tag_nc(s, pos, "bool"@) is Some {
        Some((spec_tag_nc(s, pos, "bool"@)->Some_0, SqlTypeV::Bool))
    } else if spec_tag_nc(s, pos, "datetime"@) is Some {
        let p1 = spec_tag_nc(s, pos, "datetime"@)->Some_0;
        match spec_delim_u16(s, p1) {
            Some((e, v)) => Some((e, SqlTypeV::DateTime(Some(v)))),
            None => Some((p1, SqlTypeV::DateTime(None))),
        }
    } else if spec_tag_nc(s, pos, "date"@) is Some {
        Some((spec_tag_nc(s, pos, "date"@)->Some_0, SqlTypeV::Date))
    } else if spec_tag_nc(s, pos, "double"@) is Some {
        let p1 = spec_tag_nc(s, pos, "double"@)->Some_0;
        let p2 = match spec_ws1(s, p1) {
            Some(w) => match spec_tag_nc(s, w, "precision"@) {
                Some(e) => e,
                None => p1,
            },
            None => p1,
        };
        let w2 = ws_end(s, p2);
        let p3 = match spec_precision(s, w2) {
            Some((e, _v)) => e,
            None => w2,
        };
        let w3 = ws_end(s, p3);
        let (p4, _u) = spec_opt_signed(s, w3);
        Some((p4, SqlTypeV::Double))
    } else if spec_tag_nc(s, pos, "numeric"@) is Some {
        let p1 = spec_tag_nc(s, pos, "numeric"@)->Some_0;
        let w = ws_end(s, p1);
        match spec_numeric_precision(s, w) {
            Some((e, v)) => Some((e, SqlTypeV::Numeric(Some(v)))),
            None => Some((w, SqlTypeV::Numeric(None))),
        }
    } else if spec_tag_nc(s, pos, "enum"@) is Some {
        let p1 = spec_tag_nc(s, pos, "enum"@)->Some_0;
        match spec_byte(s, p1, 0x28) {
            Some(p2) => {
                let (pe, vs) = spec_value_list(d, s, p2);
                match spec_byte(s, pe, 0x29) {
                    Some(p3) => Some((ws_end(s, p3), SqlTypeV::Enum(vs))),
                    None => None,
                }
            },
            None => None,
        }
    } else if spec_tag_nc(s, pos, "float"@) is Some {
        let p1 = spec_tag_nc(s, pos, "float"@)->Some_0;
        let w = ws_end(s, p1);
        let p2 = match spec_precision(s, w) {
            Some((e, _v)) => e,
            None => w,
        };
        Some((ws_end(s, p2), SqlTypeV::Float))
    } else if spec_tag_nc(s, pos, "real"@) is Some {
        let p1 = spec_tag_nc(s, pos, "real"@)->Some_0;
        let w = ws_end(s, p1);
        let (p2, _u) = spec_opt_signed(s, w);
        Some((p2, SqlTypeV::Real))
    } else if spec_tag_nc(s, pos, "text"@) is Some {
        Some((spec_tag_nc(s, pos, "text"@)->Some_0, SqlTypeV::Text))
    } else if ({
        let t = spec_tag_nc(s, pos, "timestamp"@);
        t is Some && {
            let p1 = t->Some_0;
            let p2 = match spec_delim_digit(s, ws_end(s, p1)) {
                Some(e) => e,
                None => p1,
            };
            spec_with_tz(s, p2) is Some
        }
    }) {
        let p1 = spec_tag_nc(s, pos, "timestamp"@)->Some_0;
        let p2 = match spec_delim_digit(s, ws_end(s, p1)) {
            Some(e) => e,
            None => p1,
        };
        Some((spec_with_tz(s, p2)->Some_0, SqlTypeV::TimestampTz))
    } else if spec_tag_nc(s, pos, "timestamp"@) is Some {
        let p1 = spec_tag_nc(s, pos, "timestamp"@)->Some_0;
        let p2 = match spec_delim_digit(s, ws_end(s, p1)) {
            Some(e) => e,
            None => p1,
        };
        Some((spec_opt_without_tz(s, p2), SqlTypeV::Timestamp))
    } else if ({
        spec_tag_nc(s, pos, "varchar"@) is Some || ({
            let t = spec_tag_nc(s, pos, "character"@);
            t is Some && {
                match spec_ws1(s, t->Some_0) {
                    Some(w) => spec_tag_nc(s, w, "varying"@) is Some,
                    None => false,
                }
            }
        })
    }) {
        let p1 = if spec_tag_nc(s, pos, "varchar"@) is Some {
            spec_tag_nc(s, pos, "varchar"@)->Some_0
        } else {
            spec_tag_nc(s, spec_ws1(s, spec_tag_nc(s, pos, "character"@)->Some_0)->Some_0,
                "varying"@)->Some_0
        };
        let (p2, len) = match spec_delim_u16(s, p1) {
            Some((e, v)) => (e, Some(v)),
            None => (p1, None::<u16>),
        };
        let w = ws_end(s, p2);
        let p3 = match spec_tag_nc(s, w, "binary"@) {
            Some(e) => e,
            None => w,
        };
        Some((p3, SqlTypeV::Varchar(len)))
    } else if spec_tag_nc(s, pos, "char"@) is Some {
        let p1 = spec_tag_nc(s, pos, "char"@)->Some_0;
        let (p2, len) = match spec_delim_u16(s, p1) {
            Some((e, v)) => (e, Some(v)),
            None => (p1, None::<u16>),
        };
        let w = ws_end(s, p2);
        let p3 = match spec_tag_nc(s, w, "binary"@) {
            Some(e) => e,
            None => w,
        };
        Some((p3, SqlTypeV::Char(len)))
    } else {
        None
    }
}

/// Reads the first half of the type alternation.
#[verifier::rlimit(100)]
pub fn type_identifier_first_half(d: Dialect, i: &[u8], pos: usize) -> (r: Option<
    (usize, SqlType),
>)
    requires
        pos <= i@.len(),
    ensures
        match r {
            Some((p2, v)) => spec_type_first(d, i@, pos as int) == Some((p2 as int, v@)) && pos
                <= p2 <= i@.len(),
            None => spec_type_first(d, i@, pos as int) is None,
        },
{
    proof {
        reveal_strlit("tinyint");
        reveal_strlit("smallint");
        reveal_strlit("integer");
        reveal_strlit("int");
        reveal_strlit("bigint");
        reveal_strlit("boolean");
        reveal_strlit("bool");
        reveal_strlit("datetime");
        reveal_strlit("date");
        reveal_strlit("double");
        reveal_strlit("precision");
        reveal_strlit("numeric");
        reveal_strlit("enum");
        reveal_strlit("float");
        reveal_strlit("real");
        reveal_strlit("text");
        reveal_strlit("timestamp");
        reveal_strlit("varchar");
        reveal_strlit("character");
        reveal_strlit("varying");
        reveal_strlit("char");
        reveal_strlit("binary");
    }
    if let Some((e, len, u)) = int_type(i, pos, "tinyint") {
        return Some((e, if u { SqlType::UnsignedTinyint(len) } else { SqlType::Tinyint(len) }));
    }
    if let Some((e, len, u)) = int_type(i, pos, "smallint") {
        return Some((e, if u { SqlType::UnsignedSmallint(len) } else { SqlType::Smallint(len) }));
    }
    if let Some((e, len, u)) = int_type(i, pos, "integer") {
        return Some((e, if u { SqlType::UnsignedInt(len) } else { SqlType::Int(len) }));
    }
    if let Some((e, len, u)) = int_type(i, pos, "int") {
        return Some((e, if u { SqlType::UnsignedInt(len) } else { SqlType::Int(len) }));
    }
    if let Some((e, len, u)) = int_type(i, pos, "bigint") {
        return Some((e, if u { SqlType::UnsignedBigint(len) } else { SqlType::Bigint(len) }));
    }
    if let Some(e) = tag_nc(i, pos, "boolean") {
        return Some((e, SqlType::Bool));
    }
    if let Some(e) = tag_nc(i, pos, "bool") {
        return Some((e, SqlType::Bool));
    }
    if let Some(p1) = tag_nc(i, pos, "datetime") {
        return match delim_u16(i, p1) {
            Some((e, v)) => Some((e, SqlType::DateTime(Some(v)))),
            None => Some((p1, SqlType::DateTime(None))),
        };
    }
    if let Some(e) = tag_nc(i, pos, "date") {
        return Some((e, SqlType::Date));
    }
    if let Some(p1) = tag_nc(i, pos, "double") {
        let p2 = match ws1(i, p1) {
            Some(w) => match tag_nc(i, w, "precision") {
                Some(e) => e,
                None => p1,
            },
            None => p1,
        };
        let w2 = ws0(i, p2);
        let p3 = match precision(i, w2) {
            Some((e, _v)) => e,
            None => w2,
        };
        let w3 = ws0(i, p3);
        let (p4, _u) = opt_signed(i, w3);
        return Some((p4, SqlType::Double));
    }
    if let Some(p1) = tag_nc(i, pos, "numeric") {
        let w = ws0(i, p1);
        return match numeric_precision(i, w) {
            Some((e, v)) => Some((e, SqlType::Numeric(Some(v)))),
            None => Some((w, SqlType::Numeric(None))),
        };
    }
    if let Some(p1) = tag_nc(i, pos, "enum") {
        if let Some(p2) = byte_tag(i, p1, 0x28) {
            let (pe, vs) = value_list(d, i, p2);
            if let Some(p3) = byte_tag(i, pe, 0x29) {
                proof {
                    lemma_lits_view_index(vs@);
                    let spec_vs = spec_value_list(d, i@, p2 as int).1;
                    assert forall|q: int|
                        0 <= q < vs@.len() implies lits_view(vs@)[q] == spec_vs[q] by {
                        assert(vs@[q]@ == spec_vs[q]);
                    }
                    assert(lits_view(vs@) =~= spec_vs);
                }
                return Some((ws0(i, p3), SqlType::Enum(vs)));
            }
        }
        return None;
    }
    if let Some(p1) = tag_nc(i, pos, "float") {
        let w = ws0(i, p1);
        let p2 = match precision(i, w) {
            Some((e, _v)) => e,
            None => w,
        };
        return Some((ws0(i, p2), SqlType::Float));
    }
    if let Some(p1) = tag_nc(i, pos, "real") {
        let w = ws0(i, p1);
        let (p2, _u) = opt_signed(i, w);
        return Some((p2, SqlType::Real));
    }
    if let Some(e) = tag_nc(i, pos, "text") {
        return Some((e, SqlType::Text));
    }
    if let Some(p1) = tag_nc(i, pos, "timestamp") {
        let wd = ws0(i, p1);
        let p2 = match delim_digit(i, wd) {
            Some(e) => e,
            None => p1,
        };
        if let Some(e) = with_tz(i, p2) {
            return Some((e, SqlType::TimestampTz));
        }
        return Some((opt_without_tz(i, p2), SqlType::Timestamp));
    }
    let vchar_p1: Option<usize> = if let Some(p) = tag_nc(i, pos, "varchar") {
        Some(p)
    } else if let Some(t) = tag_nc(i, pos, "character") {
        if let Some(w) = ws1(i, t) {
            tag_nc(i, w, "varying")
        } else {
            None
        }
    } else {
        None
    };
    if let Some(p1) = vchar_p1 {
        let (p2, len) = match delim_u16(i, p1) {
            Some((e, v)) => (e, Some(v)),
            None => (p1, None),
        };
        let w = ws0(i, p2);
        let p3 = match tag_nc(i, w, "binary") {
            Some(e) => e,
            None => w,
        };
        return Some((p3, SqlType::Varchar(len)));
    }
    if let Some(p1) = tag_nc(i, pos, "char") {
        let (p2, len) = match delim_u16(i, p1) {
            Some((e, v)) => (e, Some(v)),
            None => (p1, None),
        };
        let w = ws0(i, p2);
        let p3 = match tag_nc(i, w, "binary") {
            Some(e) => e,
            None => w,
        };
        return Some((p3, SqlType::Char(len)));
    }
    None
}

/// The second half of the ordered type alternation.
pub open spec fn spec_type_second(s: Seq<u8>, pos: int) -> Option<(int, SqlTypeV)> {
    if spec_tag_nc(s, pos, "time"@) is Some {
        Some((spec_opt_without_tz(s, spec_tag_nc(s, pos, "time"@)->Some_0), SqlTypeV::Time))
    } else if spec_decimal_or_numeric(s, pos) is Some {
        spec_decimal_or_numeric(s, pos)
    } else if spec_tag_nc(s, pos, "binary"@) is Some {
        let p1 = spec_tag_nc(s, pos, "binary"@)->Some_0;
        let (p2, len) = match spec_delim_u16(s, p1) {
            Some((e, v)) => (e, Some(v)),
            None => (p1, None::<u16>),
        };
        Some((ws_end(s, p2), SqlTypeV::Binary(len)))
    } else if spec_tag_nc(s, pos, "blob"@) is Some {
        Some((spec_tag_nc(s, pos, "blob"@)->Some_0, SqlTypeV::Blob))
    } else if spec_tag_nc(s, pos, "longblob"@) is Some {
        Some((spec_tag_nc(s, pos, "longblob"@)->Some_0, SqlTypeV::Longblob))
    } else if spec_tag_nc(s, pos, "mediumblob"@) is Some {
        Some((spec_tag_nc(s, pos, "mediumblob"@)->Some_0, SqlTypeV::Mediumblob))
    } else if spec_tag_nc(s, pos, "mediumtext"@) is Some {
        Some((spec_tag_nc(s, pos, "mediumtext"@)->Some_0, SqlTypeV::Mediumtext))
    } else if spec_tag_nc(s, pos, "longtext"@) is Some {
        Some((spec_tag_nc(s, pos, "longtext"@)->Some_0, SqlTypeV::Longtext))
    } else if spec_tag_nc(s, pos, "tinyblob"@) is Some {
        Some((spec_tag_nc(s, pos, "tinyblob"@)->Some_0, SqlTypeV::Tinyblob))
    } else if spec_tag_nc(s, pos, "tinytext"@) is Some {
        Some((spec_tag_nc(s, pos, "tinytext"@)->Some_0, SqlTypeV::Tinytext))
    } else if ({
        let t = spec_tag_nc(s, pos, "varbinary"@);
        t is Some && spec_delim_u16(s, t->Some_0) is Some
    }) {
        let (e, v) = spec_delim_u16(s, spec_tag_nc(s, pos, "varbinary"@)->Some_0)->Some_0;
        Some((ws_end(s, e), SqlTypeV::Varbinary(v)))
    } else if spec_tag_nc(s, pos, "bytea"@) is Some {
        Some((spec_tag_nc(s, pos, "bytea"@)->Some_0, SqlTypeV::ByteArray))
    } else if spec_tag_nc(s, pos, "macaddr"@) is Some {
        Some((spec_tag_nc(s, pos, "macaddr"@)->Some_0, SqlTypeV::MacAddr))
    } else if spec_tag_nc(s, pos, "inet"@) is Some {
        Some((spec_tag_nc(s, pos, "inet"@)->Some_0, SqlTypeV::Inet))
    } else if spec_tag_nc(s, pos, "uuid"@) is Some {
        Some((spec_tag_nc(s, pos, "uuid"@)->Some_0, SqlTypeV::Uuid))
    } else if spec_tag_nc(s, pos, "jsonb"@) is Some {
        Some((spec_tag_nc(s, pos, "jsonb"@)->Some_0, SqlTypeV::Jsonb))
    } else if spec_tag_nc(s, pos, "json"@) is Some {
        Some((spec_tag_nc(s, pos, "json"@)->Some_0, SqlTypeV::Json))
    } else if ({
        spec_tag_nc(s, pos, "varbit"@) is Some || ({
            let t = spec_tag_nc(s, pos, "bit"@);
            t is Some && {
                match spec_ws1(s, t->Some_0) {
                    Some(w) => spec_tag_nc(s, w, "varying"@) is Some,
                    None => false,
                }
            }
        })
    }) {
        let p1 = if spec_tag_nc(s, pos, "varbit"@) is Some {
            ws_end(s, spec_tag_nc(s, pos, "varbit"@)->Some_0)
        } else {
            ws_end(
                s,
                spec_tag_nc(s, spec_ws1(s, spec_tag_nc(s, pos, "bit"@)->Some_0)->Some_0,
                    "varying"@)->Some_0,
            )
        };
        match spec_delim_u16(s, p1) {
            Some((e, v)) => Some((e, SqlTypeV::Varbit(Some(v)))),
            None => Some((p1, SqlTypeV::Varbit(None))),
        }
    } else if spec_tag_nc(s, pos, "bit"@) is Some {
        let p1 = spec_tag_nc(s, pos, "bit"@)->Some_0;
        match spec_delim_u16(s, p1) {
            Some((e, v)) => Some((e, SqlTypeV::Bit(Some(v)))),
            None => Some((p1, SqlTypeV::Bit(None))),
        }
    } else if spec_tag_nc(s, pos, "serial"@) is Some {
        Some((spec_tag_nc(s, pos, "serial"@)->Some_0, SqlTypeV::Serial))
    } else if spec_tag_nc(s, pos, "bigserial"@) is Some {
        Some((spec_tag_nc(s, pos, "bigserial"@)->Some_0, SqlTypeV::BigSerial))
    } else {
        None
    }
}

/// Reads the second half of the type alternation.
#[verifier::rlimit(100)]
pub fn type_identifier_second_half(i: &[u8], pos: usize) -> (r: Option<(usize, SqlType)>)
    requires
        pos <= i@.len(),
    ensures
        match r {
            Some((p2, v)) => spec_type_second(i@, pos as int) == Some((p2 as int, v@)) && pos
                <= p2 <= i@.len(),
            None => spec_type_second(i@, pos as int) is None,
        },
{
    proof {
        reveal_strlit("time");
        reveal_strlit("binary");
        reveal_strlit("blob");
        reveal_strlit("longblob");
        reveal_strlit("mediumblob");
        reveal_strlit("mediumtext");
        reveal_strlit("longtext");
        reveal_strlit("tinyblob");
        reveal_strlit("tinytext");
        reveal_strlit("varbinary");
        reveal_strlit("bytea");
        reveal_strlit("macaddr");
        reveal_strlit("inet");
        reveal_strlit("uuid");
        reveal_strlit("jsonb");
        reveal_strlit("json");
        reveal_strlit("varbit");
        reveal_strlit("bit");
        reveal_strlit("varying");
        reveal_strlit("serial");
        reveal_strlit("bigserial");
    }
    if let Some(p1) = tag_nc(i, pos, "time") {
        return Some((opt_without_tz(i, p1), SqlType::Time));
    }
    if let Some((p2, v)) = decimal_or_numeric(i, pos) {
        return Some((p2, v));
    }
    if let Some(p1) = tag_nc(i, pos, "binary") {
        let (p2, len) = match delim_u16(i, p1) {
            Some((e, v)) => (e, Some(v)),
            None => (p1, None),
        };
        return Some((ws0(i, p2), SqlType::Binary(len)));
    }
    if let Some(e) = tag_nc(i, pos, "blob") {
        return Some((e, SqlType::Blob));
    }
    if let Some(e) = tag_nc(i, pos, "longblob") {
        return Some((e, SqlType::Longblob));
    }
    if let Some(e) = tag_nc(i, pos, "mediumblob") {
        return Some((e, SqlType::Mediumblob));
    }
    if let Some(e) = tag_nc(i, pos, "mediumtext") {
        return Some((e, SqlType::Mediumtext));
    }
    if let Some(e) = tag_nc(i, pos, "longtext") {
        return Some((e, SqlType::Longtext));
    }
    if let Some(e) = tag_nc(i, pos, "tinyblob") {
        return Some((e, SqlType::Tinyblob));
    }
    if let Some(e) = tag_nc(i, pos, "tinytext") {
        return Some((e, SqlType::Tinytext));
    }
    if let Some(t) = tag_nc(i, pos, "varbinary") {
        if let Some((e, v)) = delim_u16(i, t) {
            return Some((ws0(i, e), SqlType::Varbinary(v)));
        }
    }
    if let Some(e) = tag_nc(i, pos, "bytea") {
        return Some((e, SqlType::ByteArray));
    }
    if let Some(e) = tag_nc(i, pos, "macaddr") {
        return Some((e, SqlType::MacAddr));
    }
    if let Some(e) = tag_nc(i, pos, "inet") {
        return Some((e, SqlType::Inet));
    }
    if let Some(e) = tag_nc(i, pos, "uuid") {
        return Some((e, SqlType::Uuid));
    }
    if let Some(e) = tag_nc(i, pos, "jsonb") {
        return Some((e, SqlType::Jsonb));
    }
    if let Some(e) = tag_nc(i, pos, "json") {
        return Some((e, SqlType::Json));
    }
    let varbit_p1: Option<usize> = if let Some(p) = tag_nc(i, pos, "varbit") {
        Some(ws0(i, p))
    } else if let Some(t) = tag_nc(i, pos, "bit") {
        if let Some(w) = ws1(i, t) {
            if let Some(v) = tag_nc(i, w, "varying") {
                Some(ws0(i, v))
            } else {
                None
            }
        } else {
            None
        }
    } else {
        None
    };
    if let Some(p1) = varbit_p1 {
        return match delim_u16(i, p1) {
            Some((e, v)) => Some((e, SqlType::Varbit(Some(v)))),
            None => Some((p1, SqlType::Varbit(None))),
        };
    }
    if let Some(p1) = tag_nc(i, pos, "bit") {
        return match delim_u16(i, p1) {
            Some((e, v)) => Some((e, SqlType::Bit(Some(v)))),
            None => Some((p1, SqlType::Bit(None))),
        };
    }
    if let Some(e) = tag_nc(i, pos, "serial") {
        return Some((e, SqlType::Serial));
    }
    if let Some(e) = tag_nc(i, pos, "bigserial") {
        return Some((e, SqlType::BigSerial));
    }
    None
}

/// A full type specifier: the first half of the alternation, then the
/// second.
pub open spec fn spec_type_identifier(d: Dialect, s: Seq<u8>, pos: int) -> Option<
    (int, SqlTypeV),
> {
    if spec_type_first(d, s, pos) is Some {
        spec_type_first(d, s, pos)
    } else {
        spec_type_second(s, pos)
    }
}

/// Reads a SQL type specifier.
pub fn type_identifier(d: Dialect, i: &[u8], pos: usize) -> (r: Option<(usize, SqlType)>)
    requires
        pos <= i@.len(),
    ensures
        match r {
            Some((p2, v)) => spec_type_identifier(d, i@, pos as int) == Some((p2 as int, v@))
                && pos <= p2 <= i@.len(),
            None => spec_type_identifier(d, i@, pos as int) is None,
        },
{
    if let Some((p2, v)) = type_identifier_first_half(d, i, pos) {
        return Some((p2, v));
    }
    type_identifier_second_half(i, pos)
}

impl core::str::FromStr for SqlType {
    type Err = &'static str;

    /// Reads a standalone type name under the MySQL dialect; no match is
    /// an opaque error.
    fn from_str(s: &str) -> Result<SqlType, &'static str> {
        match type_identifier(Dialect::MySQL, s.as_bytes(), 0) {
            Some((_p, t)) => Ok(t),
            None => Err("failed to parse"),
        }
    }
}

/// A keyword with an optional parenthesized length.
pub open spec fn with_len(kw: Seq<char>, l: Option<u16>) -> Seq<u8> {
    match l {
        Some(v) => kw_bytes(kw) + seq![0x28u8] + dec_digits(v as nat) + seq![0x29u8],
        None => kw_bytes(kw),
    }
}

/// The enumeration list: literal texts joined by a comma and space.
pub open spec fn enum_items(vs: Seq<LiteralV>) -> Seq<u8>
    decreases vs.len(),
{
    if vs.len() == 0 {
        seq![]
    } else if vs.len() == 1 {
        crate::literal::spec_literal_bytes(vs[0])
    } else {
        crate::literal::spec_literal_bytes(vs[0]) + seq![0x2cu8, 0x20u8] + enum_items(
            vs.drop_first(),
        )
    }
}

/// The canonical upper-case text of a type specifier.
pub open spec fn spec_sqltype_bytes(t: SqlTypeV) -> Seq<u8> {
    match t {
        SqlTypeV::Bool => kw_bytes("BOOL"@),
        SqlTypeV::Char(l) => with_len("CHAR"@, l),
        SqlTypeV::Varchar(l) => with_len("VARCHAR"@, l),
        SqlTypeV::Int(l) => with_len("INT"@, l),
        SqlTypeV::UnsignedInt(l) => with_len("INT"@, l) + kw_bytes(" UNSIGNED"@),
        SqlTypeV::Bigint(l) => with_len("BIGINT"@, l),
        SqlTypeV::UnsignedBigint(l) => with_len("BIGINT"@, l) + kw_bytes(" UNSIGNED"@),
        SqlTypeV::Tinyint(l) => with_len("TINYINT"@, l),
        SqlTypeV::UnsignedTinyint(l) => with_len("TINYINT"@, l) + kw_bytes(" UNSIGNED"@),
        SqlTypeV::Smallint(l) => with_len("SMALLINT"@, l),
        SqlTypeV::UnsignedSmallint(l) => with_len("SMALLINT"@, l) + kw_bytes(" UNSIGNED"@),
        SqlTypeV::Blob => kw_bytes("BLOB"@),
        SqlTypeV::Longblob => kw_bytes("LONGBLOB"@),
        SqlTypeV::Mediumblob => kw_bytes("MEDIUMBLOB"@),
        SqlTypeV::Tinyblob => kw_bytes("TINYBLOB"@),
        SqlTypeV::Double => kw_bytes("DOUBLE"@),
        SqlTypeV::Float => kw_bytes("FLOAT"@),
        SqlTypeV::Real => kw_bytes("REAL"@),
        SqlTypeV::Numeric(p) => match p {
            Some((m, Some(d))) => kw_bytes("NUMERIC("@) + dec_digits(m as nat) + kw_bytes(
                ", "@,
            ) + dec_digits(d as nat) + seq![0x29u8],
            Some((m, None)) => kw_bytes("NUMERIC("@) + dec_digits(m as nat) + seq![0x29u8],
            None => kw_bytes("NUMERIC"@),
        },
        SqlTypeV::Tinytext => kw_bytes("TINYTEXT"@),
        SqlTypeV::Mediumtext => kw_bytes("MEDIUMTEXT"@),
        SqlTypeV::Longtext => kw_bytes("LONGTEXT"@),
        SqlTypeV::Text => kw_bytes("TEXT"@),
        SqlTypeV::Date => kw_bytes("DATE"@),
        SqlTypeV::DateTime(l) => with_len("DATETIME"@, l),
        SqlTypeV::Time => kw_bytes("TIME"@),
        SqlTypeV::Timestamp => kw_bytes("TIMESTAMP"@),
        SqlTypeV::TimestampTz => kw_bytes("TIMESTAMP WITH TIME ZONE"@),
        SqlTypeV::Binary(l) => with_len("BINARY"@, l),
        SqlTypeV::Varbinary(l) => with_len("VARBINARY"@, Some(l)),
        SqlTypeV::Enum(vs) => kw_bytes("ENUM("@) + enum_items(vs) + seq![0x29u8],
        SqlTypeV::Decimal(m, d) => kw_bytes("DECIMAL("@) + dec_digits(m as nat) + kw_bytes(
            ", "@,
        ) + dec_digits(d as nat) + seq![0x29u8],
        SqlTypeV::Json => kw_bytes("JSON"@),
        SqlTypeV::Jsonb => kw_bytes("JSONB"@),
        SqlTypeV::ByteArray => kw_bytes("BYTEA"@),
        SqlTypeV::MacAddr => kw_bytes("MACADDR"@),
        SqlTypeV::Inet => kw_bytes("INET"@),
        SqlTypeV::Uuid => kw_bytes("UUID"@),
        SqlTypeV::Bit(l) => with_len("BIT"@, l),
        SqlTypeV::Varbit(l) => with_len("VARBIT"@, l),
        SqlTypeV::Serial => kw_bytes("SERIAL"@),
        SqlTypeV::BigSerial => kw_bytes("BIGSERIAL"@),
    }
}

/// Whether the type's text can be produced: every enumerated literal must
/// be renderable.
pub open spec fn spec_type_renderable(t: SqlTypeV) -> bool {
    match t {
        SqlTypeV::Enum(vs) => lits_renderable(vs),
        _ => true,
    }
}

/// Appends a keyword and an optional parenthesized length.
fn push_with_len(out: &mut Vec<u8>, kw: &str, l: Option<u16>)
    requires
        vstd::string::is_ascii(kw),
    ensures
        final(out)@ == old(out)@ + with_len(kw@, l),
{
    push_str_bytes(out, kw);
    match l {
        Some(v) => {
            out.push(0x28);
            proof {
                assert(out@ =~= old(out)@ + kw_bytes(kw@) + seq![0x28u8]);
            }
            push_dec_u64(out, v as u64);
            out.push(0x29);
            proof {
                assert(out@ =~= old(out)@ + with_len(kw@, l));
            }
        },
        None => {},
    }
}

impl SqlType {
    /// Whether `to_sql_text` accepts this type.
    pub open spec fn renderable(&self) -> bool {
        spec_type_renderable(self@)
    }

    /// The canonical SQL text of this type, as bytes.
    #[verifier::rlimit(100)]
    pub fn sql_bytes(&self) -> (r: Vec<u8>)
        requires
            self.renderable(),
        ensures
            r@ == spec_sqltype_bytes(self@),
    {
        proof {
            reveal_strlit("BOOL");
            reveal_strlit("CHAR");
            reveal_strlit("VARCHAR");
            reveal_strlit("INT");
            reveal_strlit(" UNSIGNED");
            reveal_strlit("BIGINT");
            reveal_strlit("TINYINT");
            reveal_strlit("SMALLINT");
            reveal_strlit("BLOB");
            reveal_strlit("LONGBLOB");
            reveal_strlit("MEDIUMBLOB");
            reveal_strlit("TINYBLOB");
            reveal_strlit("DOUBLE");
            reveal_strlit("FLOAT");
            reveal_strlit("REAL");
            reveal_strlit("NUMERIC(");
            reveal_strlit(", ");
            reveal_strlit("NUMERIC");
            reveal_strlit("TINYTEXT");
            reveal_strlit("MEDIUMTEXT");
            reveal_strlit("LONGTEXT");
            reveal_strlit("TEXT");
            reveal_strlit("DATE");
            reveal_strlit("DATETIME");
            reveal_strlit("TIME");
            reveal_strlit("TIMESTAMP");
            reveal_strlit("TIMESTAMP WITH TIME ZONE");
            reveal_strlit("BINARY");
            reveal_strlit("VARBINARY");
            reveal_strlit("ENUM(");
            reveal_strlit("DECIMAL(");
            reveal_strlit("JSON");
            reveal_strlit("JSONB");
            reveal_strlit("BYTEA");
            reveal_strlit("MACADDR");
            reveal_strlit("INET");
            reveal_strlit("UUID");
            reveal_strlit("BIT");
            reveal_strlit("VARBIT");
            reveal_strlit("SERIAL");
            reveal_strlit("BIGSERIAL");
        }
        let mut out: Vec<u8> = Vec::new();
        match self {
            SqlType::Bool => push_str_bytes(&mut out, "BOOL"),
            SqlType::Char(l) => push_with_len(&mut out, "CHAR", *l),
            SqlType::Varchar(l) => push_with_len(&mut out, "VARCHAR", *l),
            SqlType::Int(l) => push_with_len(&mut out, "INT", *l),
            SqlType::UnsignedInt(l) => {
                push_with_len(&mut out, "INT", *l);
                push_str_bytes(&mut out, " UNSIGNED");
            },
            SqlType::Bigint(l) => push_with_len(&mut out, "BIGINT", *l),
            SqlType::UnsignedBigint(l) => {
                push_with_len(&mut out, "BIGINT", *l);
                push_str_bytes(&mut out, " UNSIGNED");
            },
            SqlType::Tinyint(l) => push_with_len(&mut out, "TINYINT", *l),
            SqlType::UnsignedTinyint(l) => {
                push_with_len(&mut out, "TINYINT", *l);
                push_str_bytes(&mut out, " UNSIGNED");
            },
            SqlType::Smallint(l) => push_with_len(&mut out, "SMALLINT", *l),
            SqlType::UnsignedSmallint(l) => {
                push_with_len(&mut out, "SMALLINT", *l);
                push_str_bytes(&mut out, " UNSIGNED");
            },
            SqlType::Blob => push_str_bytes(&mut out, "BLOB"),
            SqlType::Longblob => push_str_bytes(&mut out, "LONGBLOB"),
            SqlType::Mediumblob => push_str_bytes(&mut out, "MEDIUMBLOB"),
            SqlType::Tinyblob => push_str_bytes(&mut out, "TINYBLOB"),
            SqlType::Double => push_str_bytes(&mut out, "DOUBLE"),
            SqlType::Float => push_str_bytes(&mut out, "FLOAT"),
            SqlType::Real => push_str_bytes(&mut out, "REAL"),
            SqlType::Numeric(p) => {
                match p {
                    Some((m, Some(d))) => {
                        push_str_bytes(&mut out, "NUMERIC(");
                        push_dec_u64(&mut out, *m as u64);
                        push_str_bytes(&mut out, ", ");
                        push_dec_u64(&mut out, *d as u64);
                        out.push(0x29);
                        proof {
                            assert(out@ =~= spec_sqltype_bytes(self@));
                        }
                    },
                    Some((m, None)) => {
                        push_str_bytes(&mut out, "NUMERIC(");
                        push_dec_u64(&mut out, *m as u64);
                        out.push(0x29);
                        proof {
                            assert(out@ =~= spec_sqltype_bytes(self@));
                        }
                    },
                    None => push_str_bytes(&mut out, "NUMERIC"),
                }
            },
            SqlType::Tinytext => push_str_bytes(&mut out, "TINYTEXT"),
            SqlType::Mediumtext => push_str_bytes(&mut out, "MEDIUMTEXT"),
            SqlType::Longtext => push_str_bytes(&mut out, "LONGTEXT"),
            SqlType::Text => push_str_bytes(&mut out, "TEXT"),
            SqlType::Date => push_str_bytes(&mut out, "DATE"),
            SqlType::DateTime(l) => push_with_len(&mut out, "DATETIME", *l),
            SqlType::Time => push_str_bytes(&mut out, "TIME"),
            SqlType::Timestamp => push_str_bytes(&mut out, "TIMESTAMP"),
            SqlType::TimestampTz => push_str_bytes(&mut out, "TIMESTAMP WITH TIME ZONE"),
            SqlType::Binary(l) => push_with_len(&mut out, "BINARY", *l),
            SqlType::Varbinary(l) => push_with_len(&mut out, "VARBINARY", Some(*l)),
            SqlType::Enum(vs) => {
                push_str_bytes(&mut out, "ENUM(");
                let ghost head = out@;
                let ghost m = lits_view(vs@);
                proof {
                    assert(self@ == SqlTypeV::Enum(m));
                    lemma_lits_renderable_index(vs@, m);
                }
                let mut j: usize = 0;
                while j < vs.len()
                    invariant
                        j <= vs@.len(),
                        m == lits_view(vs@),
                        m.len() == vs@.len(),
                        forall|q: int|
                            0 <= q < vs@.len() ==> (#[trigger] vs@[q])@ == m[q]
                                && crate::literal::spec_renderable(vs@[q]@),
                        out@ == head + spec_enum_prefix(m, j as int),
                    decreases vs@.len() - j,
                {
                    if j > 0 {
                        out.push(0x2c);
                        out.push(0x20);
                    }
                    let t = vs[j].sql_bytes();
                    push_bytes(&mut out, t.as_slice());
                    proof {
                        lemma_enum_prefix_step(m, j as int);
                        if j > 0 {
                            assert(out@ =~= head + (spec_enum_prefix(m, j as int)
                                + seq![0x2cu8, 0x20u8] + crate::literal::spec_literal_bytes(
                                m[j as int],
                            )));
                        } else {
                            assert(spec_enum_prefix(m, 0) =~= Seq::<u8>::empty());
                            assert(out@ =~= head + (spec_enum_prefix(m, j as int)
                                + crate::literal::spec_literal_bytes(m[j as int])));
                        }
                    }
                    j += 1;
                }
                out.push(0x29);
                proof {
                    lemma_enum_prefix_full(m);
                    assert(out@ =~= kw_bytes("ENUM("@) + enum_items(m) + seq![0x29u8]);
                }
            },
            SqlType::Decimal(m, d) => {
                push_str_bytes(&mut out, "DECIMAL(");
                push_dec_u64(&mut out, *m as u64);
                push_str_bytes(&mut out, ", ");
                push_dec_u64(&mut out, *d as u64);
                out.push(0x29);
                proof {
                    assert(out@ =~= spec_sqltype_bytes(self@));
                }
            },
            SqlType::Json => push_str_bytes(&mut out, "JSON"),
            SqlType::Jsonb => push_str_bytes(&mut out, "JSONB"),
            SqlType::ByteArray => push_str_bytes(&mut out, "BYTEA"),
            SqlType::MacAddr => push_str_bytes(&mut out, "MACADDR"),
            SqlType::Inet => push_str_bytes(&mut out, "INET"),
            SqlType::Uuid => push_str_bytes(&mut out, "UUID"),
            SqlType::Bit(l) => push_with_len(&mut out, "BIT", *l),
            SqlType::Varbit(l) => push_with_len(&mut out, "VARBIT", *l),
            SqlType::Serial => push_str_bytes(&mut out, "SERIAL"),
            SqlType::BigSerial => push_str_bytes(&mut out, "BIGSERIAL"),
        }
        out
    }
}

/// The enumeration text of the first `k` items.
pub open spec fn spec_enum_prefix(vs: Seq<LiteralV>, k: int) -> Seq<u8>
    decreases k,
{
    if k <= 0 {
        seq![]
    } else if k == 1 {
        crate::literal::spec_literal_bytes(vs[0])
    } else {
        spec_enum_prefix(vs, k - 1) + seq![0x2cu8, 0x20u8] + crate::literal::spec_literal_bytes(
            vs[k - 1],
        )
    }
}

proof fn lemma_enum_prefix_step(vs: Seq<LiteralV>, k: int)
    requires
        0 <= k < vs.len(),
    ensures
        k == 0 ==> spec_enum_prefix(vs, 1) == spec_enum_prefix(vs, 0)
            + crate::literal::spec_literal_bytes(vs[0]),
        k > 0 ==> spec_enum_prefix(vs, k + 1) == spec_enum_prefix(vs, k) + seq![0x2cu8, 0x20u8]
            + crate::literal::spec_literal_bytes(vs[k]),
{
    if k == 0 {
        assert(spec_enum_prefix(vs, 0) + crate::literal::spec_literal_bytes(vs[0])
            =~= crate::literal::spec_literal_bytes(vs[0]));
    }
}

proof fn lemma_enum_prefix_full(vs: Seq<LiteralV>)
    ensures
        spec_enum_prefix(vs, vs.len() as int) == enum_items(vs),
    decreases vs.len(),
{
    if vs.len() <= 1 {
    } else {
        lemma_enum_prefix_full(vs.drop_first());
        lemma_enum_prefix_shift(vs, vs.len() as int);
    }
}

proof fn lemma_enum_prefix_shift(vs: Seq<LiteralV>, k: int)
    requires
        2 <= k <= vs.len(),
    ensures
        spec_enum_prefix(vs, k) == crate::literal::spec_literal_bytes(vs[0])
            + seq![0x2cu8, 0x20u8] + spec_enum_prefix(vs.drop_first(), k - 1),
    decreases k,
{
    if k == 2 {
        assert(vs.drop_first()[0] == vs[1]);
        assert(spec_enum_prefix(vs.drop_first(), 1) == crate::literal::spec_literal_bytes(vs[1]));
        assert(spec_enum_prefix(vs, 1) == crate::literal::spec_literal_bytes(vs[0]));
        assert(spec_enum_prefix(vs, 2) =~= crate::literal::spec_literal_bytes(vs[0])
            + seq![0x2cu8, 0x20u8] + spec_enum_prefix(vs.drop_first(), 1));
    } else {
        lemma_enum_prefix_shift(vs, k - 1);
        assert(vs.drop_first()[k - 2] == vs[k - 1]);
        assert((crate::literal::spec_literal_bytes(vs[0]) + seq![0x2cu8, 0x20u8]
            + spec_enum_prefix(vs.drop_first(), k - 2)) + seq![0x2cu8, 0x20u8]
            + crate::literal::spec_literal_bytes(vs[k - 1])
            =~= crate::literal::spec_literal_bytes(vs[0]) + seq![0x2cu8, 0x20u8] + (
        spec_enum_prefix(vs.drop_first(), k - 2) + seq![0x2cu8, 0x20u8]
            + crate::literal::spec_literal_bytes(vs[k - 1])));
    }
}

impl SqlType {
    /// The canonical SQL text of this type, or nothing when an enumerated
    /// literal's bytes are not well-formed text.
    pub fn to_sql_text(&self) -> (r: Option<String>)
        requires
            self.renderable(),
        ensures
            match r {
                Some(s) => vstd::utf8::encode_utf8(s@) == spec_sqltype_bytes(self@),
                None => !vstd::utf8::valid_utf8(spec_sqltype_bytes(self@)),
            },
    {
        let b = self.sql_bytes();
        let r = crate::dialect::bytes_to_string(&b);
        proof {
            broadcast use vstd::utf8::decode_utf8_encode_utf8;

        }
        r
    }
}

} // verus!

