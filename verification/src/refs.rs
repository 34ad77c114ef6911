//! Qualified references and the small statement-level grammars: columns
//! with an optional table qualifier, tables with optional schema and
//! alias, comma-separated lists, statement terminators, and `COMMENT`
//! clauses.

use vstd::prelude::*;
use crate::dialect::{find_byte, find_byte_exec, identifier, spec_identifier, Dialect};
use crate::lexical::{byte_tag, copy_range, kw_bytes, push_str_bytes, spec_byte, spec_tag_nc, spec_ws1, tag_nc, ws0, ws1, ws_end, QUOTE};

verus! {

/// A column reference: a name and an optional table qualifier.
#[derive(Clone, Debug, PartialEq, Eq, Hash)]
pub struct Column {
    pub name: String,
    pub table: Option<String>,
}

/// The mathematical shape of a column reference.
pub struct ColumnV {
    pub name: Seq<char>,
    pub table: Option<Seq<char>>,
}

impl View for Column {
    type V = ColumnV;

    open spec fn view(&self) -> ColumnV {
        ColumnV {
            name: self.name@,
            table: match &self.table {
                Some(t) => Some(t@),
                None => None,
            },
        }
    }
}

/// A table reference: a name with optional alias and schema.
#[derive(Clone, Debug, PartialEq, Eq, Hash)]
pub struct Table {
    pub name: String,
    pub alias: Option<String>,
    pub schema: Option<String>,
}

/// The mathematical shape of a table reference.
pub struct TableV {
    pub name: Seq<char>,
    pub alias: Option<Seq<char>>,
    pub schema: Option<Seq<char>>,
}

impl View for Table {
    type V = TableV;

    open spec fn view(&self) -> TableV {
        TableV {
            name: self.name@,
            alias: match &self.alias {
                Some(t) => Some(t@),
                None => None,
            },
            schema: match &self.schema {
                Some(t) => Some(t@),
                None => None,
            },
        }
    }
}

/// A column identifier in the `table.column` form, whitespace tolerated
/// around the dot; when the qualifier and its dot stand but no name
/// follows, the whole reference fails.
pub open spec fn spec_column_identifier(d: Dialect, s: Seq<u8>, pos: int) -> Option<
    (int, ColumnV),
> {
    let quali = match spec_identifier(d, s, pos) {
        Some((p1, t)) => {
            let w = ws_end(s, p1);
            match spec_byte(s, w, 0x2e) {
                Some(pd) => Some((ws_end(s, pd), t)),
                None => None,
            }
        },
        None => None,
    };
    match quali {
        Some((p2, t)) => match spec_identifier(d, s, p2) {
            Some((p3, n)) => Some((p3, ColumnV { name: n, table: Some(t) })),
            None => None,
        },
        None => match spec_identifier(d, s, pos) {
            Some((p3, n)) => Some((p3, ColumnV { name: n, table: None })),
            None => None,
        },
    }
}

/// Reads a column reference in the `table.column` form.
pub fn column_identifier_no_alias(d: Dialect, i: &[u8], pos: usize) -> (r: Option<
    (usize, Column),
>)
    requires
        pos <= i@.len(),
    ensures
        match r {
            Some((p2, v)) => spec_column_identifier(d, i@, pos as int) == Some((p2 as int, v@))
                && pos < p2 <= i@.len(),
            None => spec_column_identifier(d, i@, pos as int) is None,
        },
{
    if let Some((p1, t)) = identifier(d, i, pos) {
        let w = ws0(i, p1);
        if let Some(pd) = byte_tag(i, w, 0x2e) {
            let w2 = ws0(i, pd);
            return match identifier(d, i, w2) {
                Some((p3, n)) => Some((p3, Column { name: n, table: Some(t) })),
                None => None,
            };
        }
    }
    match identifier(d, i, pos) {
        Some((p3, n)) => Some((p3, Column { name: n, table: None })),
        None => None,
    }
}

/// An `AS`-style alias: mandatory whitespace, an optional `AS` keyword
/// with whitespace after it, then an identifier.
pub open spec fn spec_as_alias(d: Dialect, s: Seq<u8>, pos: int) -> Option<(int, Seq<char>)> {
    match spec_ws1(s, pos) {
        Some(w) => {
            let p = match spec_tag_nc(s, w, "as"@) {
                Some(a) => match spec_ws1(s, a) {
                    Some(w2) => w2,
                    None => w,
                },
                None => w,
            };
            spec_identifier(d, s, p)
        },
        None => None,
    }
}

/// Reads an alias after a table or field.
pub fn as_alias(d: Dialect, i: &[u8], pos: usize) -> (r: Option<(usize, String)>)
    requires
        pos <= i@.len(),
    ensures
        match r {
            Some((p2, v)) => spec_as_alias(d, i@, pos as int) == Some((p2 as int, v@)) && pos
                < p2 <= i@.len(),
            None => spec_as_alias(d, i@, pos as int) is None,
        },
{
    proof {
        reveal_strlit("as");
    }
    let w = match ws1(i, pos) {
        Some(w) => w,
        None => {
            return None;
        },
    };
    let p = match tag_nc(i, w, "as") {
        Some(a) => match ws1(i, a) {
            Some(w2) => w2,
            None => w,
        },
        None => w,
    };
    identifier(d, i, p)
}

/// A plain table reference: a name and an optional alias.
pub open spec fn spec_table_reference(d: Dialect, s: Seq<u8>, pos: int) -> Option<(int, TableV)> {
    match spec_identifier(d, s, pos) {
        Some((p1, n)) => {
            match spec_as_alias(d, s, p1) {
                Some((p2, a)) => Some((p2, TableV { name: n, alias: Some(a), schema: None })),
                None => Some((p1, TableV { name: n, alias: None, schema: None })),
            }
        },
        None => None,
    }
}

/// Reads a table name with an optional alias.
pub fn table_reference(d: Dialect, i: &[u8], pos: usize) -> (r: Option<(usize, Table)>)
    requires
        pos <= i@.len(),
    ensures
        match r {
            Some((p2, v)) => spec_table_reference(d, i@, pos as int) == Some((p2 as int, v@))
                && pos < p2 <= i@.len(),
            None => spec_table_reference(d, i@, pos as int) is None,
        },
{
    let (p1, n) = match identifier(d, i, pos) {
        Some(x) => x,
        None => {
            return None;
        },
    };
    match as_alias(d, i, p1) {
        Some((p2, a)) => Some((p2, Table { name: n, alias: Some(a), schema: None })),
        None => Some((p1, Table { name: n, alias: None, schema: None })),
    }
}

/// A schema-qualified table reference with an optional alias; the schema
/// dot admits no whitespace.
pub open spec fn spec_schema_table_reference(d: Dialect, s: Seq<u8>, pos: int) -> Option<
    (int, TableV),
> {
    let quali = match spec_identifier(d, s, pos) {
        Some((p1, t)) => match spec_byte(s, p1, 0x2e) {
            Some(pd) => Some((pd, t)),
            None => None,
        },
        None => None,
    };
    let (p2, schema) = match quali {
        Some((pd, t)) => (pd, Some(t)),
        None => (pos, None::<Seq<char>>),
    };
    match spec_identifier(d, s, p2) {
        Some((p3, n)) => {
            match spec_as_alias(d, s, p3) {
                Some((p4, a)) => Some((p4, TableV { name: n, alias: Some(a), schema })),
                None => Some((p3, TableV { name: n, alias: None, schema })),
            }
        },
        None => None,
    }
}

/// Reads a `schema.table` reference with an optional alias.
pub fn schema_table_reference(d: Dialect, i: &[u8], pos: usize) -> (r: Option<(usize, Table)>)
    requires
        pos <= i@.len(),
    ensures
        match r {
            Some((p2, v)) => spec_schema_table_reference(d, i@, pos as int) == Some(
                (p2 as int, v@),
            ) && pos < p2 <= i@.len(),
            None => spec_schema_table_reference(d, i@, pos as int) is None,
        },
{
    let mut p2 = pos;
    let mut schema: Option<String> = None;
    if let Some((p1, t)) = identifier(d, i, pos) {
        if let Some(pd) = byte_tag(i, p1, 0x2e) {
            p2 = pd;
            schema = Some(t);
        }
    }
    match identifier(d, i, p2) {
        Some((p3, n)) => {
            match as_alias(d, i, p3) {
                Some((p4, a)) => Some((p4, Table { name: n, alias: Some(a), schema })),
                None => Some((p3, Table { name: n, alias: None, schema })),
            }
        },
        None => None,
    }
}

/// A schema-qualified table reference without an alias.
pub open spec fn spec_schema_table_reference_no_alias(d: Dialect, s: Seq<u8>, pos: int) -> Option<
    (int, TableV),
> {
    let quali = match spec_identifier(d, s, pos) {
        Some((p1, t)) => match spec_byte(s, p1, 0x2e) {
            Some(pd) => Some((pd, t)),
            None => None,
        },
        None => None,
    };
    let (p2, schema) = match quali {
        Some((pd, t)) => (pd, Some(t)),
        None => (pos, None::<Seq<char>>),
    };
    match spec_identifier(d, s, p2) {
        Some((p3, n)) => Some((p3, TableV { name: n, alias: None, schema })),
        None => None,
    }
}

/// Reads a `schema.table` reference, never taking an alias.
pub fn schema_table_reference_no_alias(d: Dialect, i: &[u8], pos: usize) -> (r: Option<
    (usize, Table),
>)
    requires
        pos <= i@.len(),
    ensures
        match r {
            Some((p2, v)) => spec_schema_table_reference_no_alias(d, i@, pos as int) == Some(
                (p2 as int, v@),
            ) && pos < p2 <= i@.len(),
            None => spec_schema_table_reference_no_alias(d, i@, pos as int) is None,
        },
{
    let mut p2 = pos;
    let mut schema: Option<String> = None;
    if let Some((p1, t)) = identifier(d, i, pos) {
        if let Some(pd) = byte_tag(i, p1, 0x2e) {
            p2 = pd;
            schema = Some(t);
        }
    }
    match identifier(d, i, p2) {
        Some((p3, n)) => Some((p3, Table { name: n, alias: None, schema })),
        None => None,
    }
}

/// A comma surrounded by optional whitespace.
pub open spec fn spec_ws_sep_comma(s: Seq<u8>, pos: int) -> Option<int> {
    let w1 = ws_end(s, pos);
    match spec_byte(s, w1, 0x2c) {
        Some(pc) => Some(ws_end(s, pc)),
        None => None,
    }
}

/// Reads a comma with optional whitespace on both sides.
pub fn ws_sep_comma(i: &[u8], pos: usize) -> (r: Option<usize>)
    requires
        pos <= i@.len(),
    ensures
        match r {
            Some(p2) => spec_ws_sep_comma(i@, pos as int) == Some(p2 as int) && pos < p2
                <= i@.len(),
            None => spec_ws_sep_comma(i@, pos as int) is None,
        },
{
    let w1 = ws0(i, pos);
    match byte_tag(i, w1, 0x2c) {
        Some(pc) => Some(ws0(i, pc)),
        None => None,
    }
}

/// An equals sign surrounded by optional whitespace.
pub open spec fn spec_ws_sep_equals(s: Seq<u8>, pos: int) -> Option<int> {
    let w1 = ws_end(s, pos);
    match spec_byte(s, w1, 0x3d) {
        Some(pc) => Some(ws_end(s, pc)),
        None => None,
    }
}

/// Reads an equals sign with optional whitespace on both sides.
pub fn ws_sep_equals(i: &[u8], pos: usize) -> (r: Option<usize>)
    requires
        pos <= i@.len(),
    ensures
        match r {
            Some(p2) => spec_ws_sep_equals(i@, pos as int) == Some(p2 as int) && pos < p2
                <= i@.len(),
            None => spec_ws_sep_equals(i@, pos as int) is None,
        },
{
    let w1 = ws0(i, pos);
    match byte_tag(i, w1, 0x3d) {
        Some(pc) => Some(ws0(i, pc)),
        None => None,
    }
}

/// A statement terminator: optional whitespace, then a semicolon, a line
/// ending, or the end of the input, then optional whitespace.
pub open spec fn spec_statement_terminator(s: Seq<u8>, pos: int) -> Option<int> {
    let w1 = ws_end(s, pos);
    if spec_byte(s, w1, 0x3b) is Some {
        Some(ws_end(s, w1 + 1))
    } else if w1 + 1 < s.len() && s[w1] == 0x0d && s[w1 + 1] == 0x0a {
        Some(ws_end(s, w1 + 2))
    } else if w1 < s.len() && s[w1] == 0x0a {
        Some(ws_end(s, w1 + 1))
    } else if w1 == s.len() {
        Some(w1)
    } else {
        None
    }
}

/// Reads the terminator that ends a SQL statement.
pub fn statement_terminator(i: &[u8], pos: usize) -> (r: Option<usize>)
    requires
        pos <= i@.len(),
    ensures
        match r {
            Some(p2) => spec_statement_terminator(i@, pos as int) == Some(p2 as int) && pos <= p2
                <= i@.len(),
            None => spec_statement_terminator(i@, pos as int) is None,
        },
{
    let w1 = ws0(i, pos);
    if w1 < i.len() && i[w1] == 0x3b {
        return Some(ws0(i, w1 + 1));
    }
    if w1 < i.len() && w1 + 1 < i.len() && i[w1] == 0x0d && i[w1 + 1] == 0x0a {
        return Some(ws0(i, w1 + 2));
    }
    if w1 < i.len() && i[w1] == 0x0a {
        return Some(ws0(i, w1 + 1));
    }
    if w1 == i.len() {
        return Some(w1);
    }
    None
}

/// A `COMMENT '…'` clause; the quoted text must be well-formed and runs to
/// the next quote.
pub open spec fn spec_parse_comment(s: Seq<u8>, pos: int) -> Option<(int, Seq<char>)> {
    let w1 = ws_end(s, pos);
    match spec_tag_nc(s, w1, "comment"@) {
        Some(a) => match spec_ws1(s, a) {
            Some(w2) => match spec_byte(s, w2, QUOTE) {
                Some(b) => match find_byte(s, b, QUOTE) {
                    Some(e) => {
                        let inner = s.subrange(b, e);
                        if vstd::utf8::valid_utf8(inner) {
                            Some((e + 1, vstd::utf8::decode_utf8(inner)))
                        } else {
                            None
                        }
                    },
                    None => None,
                },
                None => None,
            },
            None => None,
        },
        None => None,
    }
}

/// Reads a comment part.
pub fn parse_comment(i: &[u8], pos: usize) -> (r: Option<(usize, String)>)
    requires
        pos <= i@.len(),
    ensures
        match r {
            Some((p2, v)) => spec_parse_comment(i@, pos as int) == Some((p2 as int, v@)) && pos
                < p2 <= i@.len(),
            None => spec_parse_comment(i@, pos as int) is None,
        },
{
    proof {
        reveal_strlit("comment");
    }
    let n = i.len();
    let w1 = ws0(i, pos);
    let a = match tag_nc(i, w1, "comment") {
        Some(a) => a,
        None => {
            return None;
        },
    };
    let w2 = match ws1(i, a) {
        Some(w) => w,
        None => {
            return None;
        },
    };
    let b = match byte_tag(i, w2, QUOTE) {
        Some(b) => b,
        None => {
            return None;
        },
    };
    let e = match find_byte_exec(i, b, QUOTE) {
        Some(e) => e,
        None => {
            return None;
        },
    };
    let inner = copy_range(i, b, e);
    proof {
        assert(e < n);
    }
    match crate::dialect::bytes_to_string(&inner) {
        Some(s) => Some((e + 1, s)),
        None => None,
    }
}

/// An optional `IF NOT EXISTS` prefix; the result says whether it stood.
pub open spec fn spec_if_not_exists(s: Seq<u8>, pos: int) -> (int, bool) {
    match spec_tag_nc(s, pos, "if"@) {
        Some(a) => match spec_ws1(s, a) {
            Some(w1) => match spec_tag_nc(s, w1, "not"@) {
                Some(b) => match spec_ws1(s, b) {
                    Some(w2) => match spec_tag_nc(s, w2, "exists"@) {
                        Some(c) => match spec_ws1(s, c) {
                            Some(w3) => (w3, true),
                            None => (pos, false),
                        },
                        None => (pos, false),
                    },
                    None => (pos, false),
                },
                None => (pos, false),
            },
            None => (pos, false),
        },
        None => (pos, false),
    }
}

/// Reads an optional `IF NOT EXISTS`.
pub fn if_not_exists(i: &[u8], pos: usize) -> (r: (usize, bool))
    requires
        pos <= i@.len(),
    ensures
        (r.0 as int, r.1) == spec_if_not_exists(i@, pos as int),
        pos <= r.0 <= i@.len(),
{
    proof {
        reveal_strlit("if");
        reveal_strlit("not");
        reveal_strlit("exists");
    }
    if let Some(a) = tag_nc(i, pos, "if") {
        if let Some(w1) = ws1(i, a) {
            if let Some(b) = tag_nc(i, w1, "not") {
                if let Some(w2) = ws1(i, b) {
                    if let Some(c) = tag_nc(i, w2, "exists") {
                        if let Some(w3) = ws1(i, c) {
                            return (w3, true);
                        }
                    }
                }
            }
        }
    }
    (pos, false)
}

/// The tail of a comma-separated column list.
pub open spec fn spec_field_list_tail(d: Dialect, s: Seq<u8>, pos: int) -> (int, Seq<ColumnV>)
    decreases s.len() - pos,
{
    match spec_ws_sep_comma(s, pos) {
        Some(w) => match spec_column_identifier(d, s, w) {
            Some((pe, v)) => {
                if pos < pe <= s.len() {
                    let (pr, rest) = spec_field_list_tail(d, s, pe);
                    (pr, seq![v] + rest)
                } else {
                    (pos, seq![])
                }
            },
            None => (pos, seq![]),
        },
        None => (pos, seq![]),
    }
}

/// A possibly empty comma-separated list of column references.
pub open spec fn spec_field_list(d: Dialect, s: Seq<u8>, pos: int) -> (int, Seq<ColumnV>) {
    match spec_column_identifier(d, s, pos) {
        Some((p1, v)) => {
            let (pr, rest) = spec_field_list_tail(d, s, p1);
            (pr, seq![v] + rest)
        },
        None => (pos, seq![]),
    }
}

/// Reads a comma-separated list of columns without aliases.
pub fn field_list(d: Dialect, i: &[u8], pos: usize) -> (r: (usize, Vec<Column>))
    requires
        pos <= i@.len(),
    ensures
        ({
            let (pr, vs) = spec_field_list(d, i@, pos as int);
            r.0 as int == pr && r.1@.len() == vs.len() && (forall|j: int|
                0 <= j < vs.len() ==> #[trigger] r.1@[j]@ == vs[j]) && pos <= r.0 <= i@.len()
        }),
{
    let mut out: Vec<Column> = Vec::new();
    let mut p: usize;
    match column_identifier_no_alias(d, i, pos) {
        None => {
            proof {
                assert(spec_field_list(d, i@, pos as int).1 =~= Seq::<ColumnV>::empty());
            }
            return (pos, out);
        },
        Some((p1, v)) => {
            out.push(v);
            p = p1;
        },
    }
    let ilen = i.len();
    let ghost whole = spec_field_list(d, i@, pos as int);
    proof {
        assert(ilen == i@.len());
        assert(whole.0 == spec_field_list_tail(d, i@, p as int).0);
        assert(whole.1 =~= out@.map(|j: int, c: Column| c@) + spec_field_list_tail(
            d,
            i@,
            p as int,
        ).1);
    }
    loop
        invariant
            pos < p <= i@.len(),
            i@.len() <= usize::MAX,
            whole == spec_field_list(d, i@, pos as int),
            whole.0 == spec_field_list_tail(d, i@, p as int).0,
            whole.1 =~= out@.map(|j: int, c: Column| c@) + spec_field_list_tail(
                d,
                i@,
                p as int,
            ).1,
        decreases i@.len() - p,
    {
        let w = match ws_sep_comma(i, p) {
            Some(w) => w,
            None => {
                proof {
                    assert(spec_field_list_tail(d, i@, p as int).1 =~= Seq::<ColumnV>::empty());
                    assert(whole.1 =~= out@.map(|j: int, c: Column| c@));
                    lemma_col_map_index(out@, whole.1);
                }
                return (p, out);
            },
        };
        match column_identifier_no_alias(d, i, w) {
            Some((pe, v2)) => {
                proof {
                    let (pr, rest) = spec_field_list_tail(d, i@, pe as int);
                    assert(spec_field_list_tail(d, i@, p as int).1 =~= seq![v2@] + rest);
                    assert((out@.map(|j: int, c: Column| c@) + (seq![v2@] + rest)) =~= (out@.push(
                        v2,
                    ).map(|j: int, c: Column| c@) + rest));
                }
                out.push(v2);
                p = pe;
            },
            None => {
                proof {
                    assert(spec_field_list_tail(d, i@, p as int).1 =~= Seq::<ColumnV>::empty());
                    assert(whole.1 =~= out@.map(|j: int, c: Column| c@));
                    lemma_col_map_index(out@, whole.1);
                }
                return (p, out);
            },
        }
    }
}

proof fn lemma_col_map_index(v: Seq<Column>, m: Seq<ColumnV>)
    requires
        m =~= v.map(|j: int, c: Column| c@),
    ensures
        m.len() == v.len(),
        forall|j: int| 0 <= j < m.len() ==> #[trigger] v[j]@ == m[j],
{
    assert(forall|j: int|
        0 <= j < v.len() ==> v.map(|q: int, c: Column| c@)[j] == #[trigger] v[j]@);
}

/// The tail of a comma-separated table list.
pub open spec fn spec_table_list_tail(d: Dialect, s: Seq<u8>, pos: int) -> (int, Seq<TableV>)
    decreases s.len() - pos,
{
    match spec_ws_sep_comma(s, pos) {
        Some(w) => match spec_schema_table_reference(d, s, w) {
            Some((pe, v)) => {
                if pos < pe <= s.len() {
                    let (pr, rest) = spec_table_list_tail(d, s, pe);
                    (pr, seq![v] + rest)
                } else {
                    (pos, seq![])
                }
            },
            None => (pos, seq![]),
        },
        None => (pos, seq![]),
    }
}

/// A nonempty comma-separated list of schema-qualified table references.
pub open spec fn spec_table_list(d: Dialect, s: Seq<u8>, pos: int) -> Option<(int, Seq<TableV>)> {
    match spec_schema_table_reference(d, s, pos) {
        Some((p1, v)) => {
            let (pr, rest) = spec_table_list_tail(d, s, p1);
            Some((pr, seq![v] + rest))
        },
        None => None,
    }
}

/// Reads a list of table names; at least one must stand.
pub fn table_list(d: Dialect, i: &[u8], pos: usize) -> (r: Option<(usize, Vec<Table>)>)
    requires
        pos <= i@.len(),
    ensures
        match r {
            Some((p2, ts)) => {
                let (pr, vs) = spec_table_list(d, i@, pos as int)->Some_0;
                spec_table_list(d, i@, pos as int) is Some && p2 as int == pr && ts@.len()
                    == vs.len() && (forall|j: int|
                    0 <= j < vs.len() ==> #[trigger] ts@[j]@ == vs[j]) && pos < p2 <= i@.len()
            },
            None => spec_table_list(d, i@, pos as int) is None,
        },
{
    let mut out: Vec<Table> = Vec::new();
    let mut p: usize;
    match schema_table_reference(d, i, pos) {
        None => {
            return None;
        },
        Some((p1, v)) => {
            out.push(v);
            p = p1;
        },
    }
    let ilen = i.len();
    let ghost whole = spec_table_list(d, i@, pos as int)->Some_0;
    proof {
        assert(ilen == i@.len());
        assert(whole.1 =~= out@.map(|j: int, c: Table| c@) + spec_table_list_tail(
            d,
            i@,
            p as int,
        ).1);
    }
    loop
        invariant
            pos < p <= i@.len(),
            i@.len() <= usize::MAX,
            spec_table_list(d, i@, pos as int) is Some,
            whole == spec_table_list(d, i@, pos as int)->Some_0,
            whole.0 == spec_table_list_tail(d, i@, p as int).0,
            whole.1 =~= out@.map(|j: int, c: Table| c@) + spec_table_list_tail(
                d,
                i@,
                p as int,
            ).1,
        decreases i@.len() - p,
    {
        let w = match ws_sep_comma(i, p) {
            Some(w) => w,
            None => {
                proof {
                    assert(spec_table_list_tail(d, i@, p as int).1 =~= Seq::<TableV>::empty());
                    assert(whole.1 =~= out@.map(|j: int, c: Table| c@));
                    lemma_tab_map_index(out@, whole.1);
                }
                return Some((p, out));
            },
        };
        match schema_table_reference(d, i, w) {
            Some((pe, v2)) => {
                proof {
                    let (pr, rest) = spec_table_list_tail(d, i@, pe as int);
                    assert(spec_table_list_tail(d, i@, p as int).1 =~= seq![v2@] + rest);
                    assert((out@.map(|j: int, c: Table| c@) + (seq![v2@] + rest)) =~= (out@.push(
                        v2,
                    ).map(|j: int, c: Table| c@) + rest));
                }
                out.push(v2);
                p = pe;
            },
            None => {
                proof {
                    assert(spec_table_list_tail(d, i@, p as int).1 =~= Seq::<TableV>::empty());
                    assert(whole.1 =~= out@.map(|j: int, c: Table| c@));
                    lemma_tab_map_index(out@, whole.1);
                }
                return Some((p, out));
            },
        }
    }
}

proof fn lemma_tab_map_index(v: Seq<Table>, m: Seq<TableV>)
    requires
        m =~= v.map(|j: int, c: Table| c@),
    ensures
        m.len() == v.len(),
        forall|j: int| 0 <= j < m.len() ==> #[trigger] v[j]@ == m[j],
{
    assert(forall|j: int|
        0 <= j < v.len() ==> v.map(|q: int, c: Table| c@)[j] == #[trigger] v[j]@);
}

/// The back-ticked text of a column name, as the key forms render it.
pub open spec fn spec_quoted_name(n: Seq<char>) -> Seq<u8> {
    seq![0x60u8] + vstd::utf8::encode_utf8(n) + seq![0x60u8]
}

/// Appends a back-ticked name.
pub fn push_quoted_name(out: &mut Vec<u8>, n: &String)
    ensures
        final(out)@ == old(out)@ + spec_quoted_name(n@),
{
    broadcast use vstd::string::is_ascii_spec_bytes;

    out.push(0x60);
    crate::lexical::push_bytes(out, n.as_str().as_bytes());
    out.push(0x60);
    proof {
        assert(final(out)@ =~= old(out)@ + spec_quoted_name(n@));
    }
}

/// The rendered form of a table reference: optional back-ticked schema
/// and dot, back-ticked name, optional ` AS ` and back-ticked alias.
pub open spec fn spec_table_bytes(t: TableV) -> Seq<u8> {
    let sch: Seq<u8> = match t.schema {
        Some(s) => spec_quoted_name(s) + seq![0x2eu8],
        None => seq![],
    };
    let al: Seq<u8> = match t.alias {
        Some(a) => kw_bytes(" AS "@) + spec_quoted_name(a),
        None => seq![],
    };
    sch + spec_quoted_name(t.name) + al
}

impl Table {
    /// The rendered text of this table reference, as bytes.
    pub fn sql_bytes(&self) -> (r: Vec<u8>)
        ensures
            r@ == spec_table_bytes(self@),
    {
        proof {
            reveal_strlit(" AS ");
        }
        let mut out: Vec<u8> = Vec::new();
        match &self.schema {
            Some(s) => {
                push_quoted_name(&mut out, s);
                out.push(0x2e);
            },
            None => {},
        }
        push_quoted_name(&mut out, &self.name);
        match &self.alias {
            Some(a) => {
                proof {
                    assert(vstd::string::is_ascii(" AS "));
                }
                push_str_bytes(&mut out, " AS ");
                push_quoted_name(&mut out, a);
            },
            None => {},
        }
        proof {
            assert(out@ =~= spec_table_bytes(self@));
        }
        out
    }
}

} // verus!
