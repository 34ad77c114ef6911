//! The shapes of SELECT-list entries and of GROUP BY/ORDER BY targets,
//! with their grammars: `*`, `table.*`, aliased expressions, and numeric
//! or expression field references.

use vstd::prelude::*;
use crate::dialect::Dialect;
use crate::expr::{expression, spec_expression, ExprV, Expression};
use crate::lexical::{byte_tag, parse_uint, spec_byte, spec_uint};
use crate::literal::Literal;
use crate::refs::{column_identifier_no_alias, spec_as_alias, spec_column_identifier, spec_table_reference, spec_ws_sep_comma, spec_ws_sep_equals, as_alias, table_reference, ws_sep_comma, ws_sep_equals, Column, ColumnV};

verus! {

/// One entry of a SELECT list: everything, everything in one table, or an
/// expression with an optional alias.
#[derive(Debug, PartialEq, Eq, Hash)]
pub enum FieldDefinitionExpression {
    All,
    AllInTable(String),
    Expression { expr: Expression, alias: Option<String> },
}

/// The mathematical shape of a SELECT-list entry.
pub enum FieldDefV {
    All,
    AllInTable(Seq<char>),
    Expression { expr: ExprV, alias: Option<Seq<char>> },
}

impl View for FieldDefinitionExpression {
    type V = FieldDefV;

    open spec fn view(&self) -> FieldDefV {
        match self {
            FieldDefinitionExpression::All => FieldDefV::All,
            FieldDefinitionExpression::AllInTable(t) => FieldDefV::AllInTable(t@),
            FieldDefinitionExpression::Expression { expr, alias } => FieldDefV::Expression {
                expr: expr@,
                alias: match alias {
                    Some(a) => Some(a@),
                    None => None,
                },
            },
        }
    }
}

impl Default for FieldDefinitionExpression {
    /// The default entry selects everything.
    fn default() -> (r: FieldDefinitionExpression)
        ensures
            r == FieldDefinitionExpression::All,
    {
        FieldDefinitionExpression::All
    }
}

/// A GROUP BY or ORDER BY target: a one-based ordinal into the SELECT
/// list, or an expression.
#[derive(Debug, PartialEq, Eq, Hash)]
pub enum FieldReference {
    Numeric(u64),
    Expression(Expression),
}

/// The mathematical shape of a field reference.
pub enum FieldRefV {
    Numeric(u64),
    Expression(ExprV),
}

impl View for FieldReference {
    type V = FieldRefV;

    open spec fn view(&self) -> FieldRefV {
        match self {
            FieldReference::Numeric(n) => FieldRefV::Numeric(*n),
            FieldReference::Expression(e) => FieldRefV::Expression(e@),
        }
    }
}

/// One SELECT-list entry: `*`, `table.*`, or an aliased expression, tried
/// in that order.
pub open spec fn spec_field_def_item(d: Dialect, s: Seq<u8>, pos: int) -> Option<
    (int, FieldDefV),
> {
    if spec_byte(s, pos, 0x2a) is Some {
        Some((pos + 1, FieldDefV::All))
    } else if ({
        let t = spec_table_reference(d, s, pos);
        t is Some && {
            let (p1, _tv) = t->Some_0;
            p1 + 2 <= s.len() && s[p1] == 0x2e && s[p1 + 1] == 0x2a
        }
    }) {
        let (p1, tv) = spec_table_reference(d, s, pos)->Some_0;
        Some((p1 + 2, FieldDefV::AllInTable(tv.name)))
    } else {
        match spec_expression(d, s, pos) {
            Some((p1, e)) => {
                match spec_as_alias(d, s, p1) {
                    Some((p2, a)) => Some(
                        (p2, FieldDefV::Expression { expr: e, alias: Some(a) }),
                    ),
                    None => Some((p1, FieldDefV::Expression { expr: e, alias: None })),
                }
            },
            None => None,
        }
    }
}

fn field_def_item(d: Dialect, i: &[u8], pos: usize) -> (r: Option<
    (usize, FieldDefinitionExpression),
>)
    requires
        pos <= i@.len(),
    ensures
        match r {
            Some((p2, v)) => spec_field_def_item(d, i@, pos as int) == Some((p2 as int, v@))
                && pos <= p2 <= i@.len(),
            None => spec_field_def_item(d, i@, pos as int) is None,
        },
{
    if let Some(p) = byte_tag(i, pos, 0x2a) {
        return Some((p, FieldDefinitionExpression::All));
    }
    if let Some((p1, t)) = table_reference(d, i, pos) {
        if p1 < i.len() && p1 + 1 < i.len() && i[p1] == 0x2e && i[p1 + 1] == 0x2a {
            return Some((p1 + 2, FieldDefinitionExpression::AllInTable(t.name)));
        }
    }
    match expression(d, i, pos) {
        Some((p1, e)) => {
            match as_alias(d, i, p1) {
                Some((p2, a)) => Some(
                    (p2, FieldDefinitionExpression::Expression { expr: e, alias: Some(a) }),
                ),
                None => Some(
                    (p1, FieldDefinitionExpression::Expression { expr: e, alias: None }),
                ),
            }
        },
        None => None,
    }
}

/// The tail of the SELECT-list grammar.
pub open spec fn spec_field_defs_tail(d: Dialect, s: Seq<u8>, pos: int) -> (int, Seq<FieldDefV>)
    decreases s.len() - pos,
{
    match spec_ws_sep_comma(s, pos) {
        Some(w) => match spec_field_def_item(d, s, w) {
            Some((pe, v)) => {
                if pos < pe <= s.len() {
                    let (pr, rest) = spec_field_defs_tail(d, s, pe);
                    (pr, seq![v] + rest)
                } else {
                    (pos, seq![])
                }
            },
            None => (pos, seq![]),
        },
        None => (pos, seq![]),
    }
}

/// The entry list before the trailing comma.
pub open spec fn spec_field_defs_list(d: Dialect, s: Seq<u8>, pos: int) -> (int, Seq<FieldDefV>) {
    match spec_field_def_item(d, s, pos) {
        Some((p1, v)) => {
            let (pr, rest) = spec_field_defs_tail(d, s, p1);
            (pr, seq![v] + rest)
        },
        None => (pos, Seq::<FieldDefV>::empty()),
    }
}

/// The SELECT-list grammar: a possibly empty comma-separated entry list,
/// tolerating one trailing comma.
pub open spec fn spec_field_definition_expr(d: Dialect, s: Seq<u8>, pos: int) -> (
    int,
    Seq<FieldDefV>,
) {
    let (pe, items) = spec_field_defs_list(d, s, pos);
    match spec_ws_sep_comma(s, pe) {
        Some(p2) => (p2, items),
        None => (pe, items),
    }
}

fn field_defs_collect(d: Dialect, i: &[u8], pos: usize) -> (r: (
    usize,
    Vec<FieldDefinitionExpression>,
))
    requires
        pos <= i@.len(),
    ensures
        ({
            let (pr, vs) = spec_field_defs_list(d, i@, pos as int);
            r.0 as int == pr && r.1@.len() == vs.len() && (forall|j: int|
                0 <= j < vs.len() ==> #[trigger] r.1@[j]@ == vs[j]) && pos <= r.0 <= i@.len()
        }),
{
    let mut out: Vec<FieldDefinitionExpression> = Vec::new();
    let mut p: usize;
    match field_def_item(d, i, pos) {
        None => {
            proof {
                assert(spec_field_defs_list(d, i@, pos as int).1 =~= Seq::<FieldDefV>::empty());
            }
            return (pos, out);
        },
        Some((p1, v)) => {
            out.push(v);
            p = p1;
        },
    }
    let ilen = i.len();
    let ghost whole = spec_field_defs_list(d, i@, pos as int);
    proof {
        assert(ilen == i@.len());
        assert(whole.0 == spec_field_defs_tail(d, i@, p as int).0);
        assert(whole.1 =~= out@.map(|j: int, l: FieldDefinitionExpression| l@)
            + spec_field_defs_tail(d, i@, p as int).1);
    }
    loop
        invariant
            pos <= p <= i@.len(),
            i@.len() <= usize::MAX,
            whole == spec_field_defs_list(d, i@, pos as int),
            whole.0 == spec_field_defs_tail(d, i@, p as int).0,
            whole.1 =~= out@.map(|j: int, l: FieldDefinitionExpression| l@)
                + spec_field_defs_tail(d, i@, p as int).1,
        decreases i@.len() - p,
    {
        let w = match ws_sep_comma(i, p) {
            Some(w) => w,
            None => {
                proof {
                    assert(spec_field_defs_tail(d, i@, p as int).1 =~= Seq::<FieldDefV>::empty());
                    assert(whole.1 =~= out@.map(|j: int, l: FieldDefinitionExpression| l@));
                    lemma_fd_map_index(out@, whole.1);
                }
                return (p, out);
            },
        };
        match field_def_item(d, i, w) {
            Some((pe, v2)) => {
                if !(p < pe) {
                    proof {
                        assert(spec_field_defs_tail(d, i@, p as int).1 =~= Seq::<
                            FieldDefV,
                        >::empty());
                        assert(whole.1 =~= out@.map(|j: int, l: FieldDefinitionExpression| l@));
                        lemma_fd_map_index(out@, whole.1);
                    }
                    return (p, out);
                }
                proof {
                    let (pr, rest) = spec_field_defs_tail(d, i@, pe as int);
                    assert(spec_field_defs_tail(d, i@, p as int).1 =~= seq![v2@] + rest);
                    assert((out@.map(|j: int, l: FieldDefinitionExpression| l@) + (seq![v2@]
                        + rest)) =~= (out@.push(v2).map(|j: int, l: FieldDefinitionExpression| l@)
                        + rest));
                }
                out.push(v2);
                p = pe;
            },
            None => {
                proof {
                    assert(spec_field_defs_tail(d, i@, p as int).1 =~= Seq::<FieldDefV>::empty());
                    assert(whole.1 =~= out@.map(|j: int, l: FieldDefinitionExpression| l@));
                    lemma_fd_map_index(out@, whole.1);
                }
                return (p, out);
            },
        }
    }
}

/// Reads a SELECT list of column and field definitions.
pub fn field_definition_expr(d: Dialect, i: &[u8], pos: usize) -> (r: (
    usize,
    Vec<FieldDefinitionExpression>,
))
    requires
        pos <= i@.len(),
    ensures
        ({
            let (pr, vs) = spec_field_definition_expr(d, i@, pos as int);
            r.0 as int == pr && r.1@.len() == vs.len() && (forall|j: int|
                0 <= j < vs.len() ==> #[trigger] r.1@[j]@ == vs[j]) && pos <= r.0 <= i@.len()
        }),
{
    let (p, out) = field_defs_collect(d, i, pos);
    let pf = match ws_sep_comma(i, p) {
        Some(p2) => p2,
        None => p,
    };
    (pf, out)
}

proof fn lemma_fd_map_index(v: Seq<FieldDefinitionExpression>, m: Seq<FieldDefV>)
    requires
        m =~= v.map(|j: int, l: FieldDefinitionExpression| l@),
    ensures
        m.len() == v.len(),
        forall|j: int| 0 <= j < m.len() ==> #[trigger] v[j]@ == m[j],
{
    assert(forall|j: int|
        0 <= j < v.len() ==> v.map(|q: int, l: FieldDefinitionExpression| l@)[j]
            == #[trigger] v[j]@);
}

/// One field reference: under MySQL a bare ordinal is numeric, under
/// PostgreSQL everything is an expression.
pub open spec fn spec_field_reference(d: Dialect, s: Seq<u8>, pos: int) -> Option<
    (int, FieldRefV),
> {
    if d == Dialect::MySQL && spec_uint(s, pos, 0xffffffffffffffff) is Some {
        let (e, v) = spec_uint(s, pos, 0xffffffffffffffff)->Some_0;
        Some((e, FieldRefV::Numeric(v as u64)))
    } else {
        match spec_expression(d, s, pos) {
            Some((e, v)) => Some((e, FieldRefV::Expression(v))),
            None => None,
        }
    }
}

/// Reads a GROUP BY or ORDER BY field reference.
pub fn field_reference(d: Dialect, i: &[u8], pos: usize) -> (r: Option<(usize, FieldReference)>)
    requires
        pos <= i@.len(),
    ensures
        match r {
            Some((p2, v)) => spec_field_reference(d, i@, pos as int) == Some((p2 as int, v@))
                && pos <= p2 <= i@.len(),
            None => spec_field_reference(d, i@, pos as int) is None,
        },
{
    if matches!(d, Dialect::MySQL) {
        if let Some((e, v)) = parse_uint(i, pos, 0xffffffffffffffff) {
            return Some((e, FieldReference::Numeric(v)));
        }
    }
    match expression(d, i, pos) {
        Some((e, v)) => Some((e, FieldReference::Expression(v))),
        None => None,
    }
}

/// The tail of a field-reference list.
pub open spec fn spec_field_refs_tail(d: Dialect, s: Seq<u8>, pos: int) -> (int, Seq<FieldRefV>)
    decreases s.len() - pos,
{
    match spec_ws_sep_comma(s, pos) {
        Some(w) => match spec_field_reference(d, s, w) {
            Some((pe, v)) => {
                if pos < pe <= s.len() {
                    let (pr, rest) = spec_field_refs_tail(d, s, pe);
                    (pr, seq![v] + rest)
                } else {
                    (pos, seq![])
                }
            },
            None => (pos, seq![]),
        },
        None => (pos, seq![]),
    }
}

/// A possibly empty comma-separated list of field references.
pub open spec fn spec_field_reference_list(d: Dialect, s: Seq<u8>, pos: int) -> (
    int,
    Seq<FieldRefV>,
) {
    match spec_field_reference(d, s, pos) {
        Some((p1, v)) => {
            let (pr, rest) = spec_field_refs_tail(d, s, p1);
            (pr, seq![v] + rest)
        },
        None => (pos, Seq::<FieldRefV>::empty()),
    }
}

/// Reads a comma-separated list of field references.
pub fn field_reference_list(d: Dialect, i: &[u8], pos: usize) -> (r: (usize, Vec<FieldReference>))
    requires
        pos <= i@.len(),
    ensures
        ({
            let (pr, vs) = spec_field_reference_list(d, i@, pos as int);
            r.0 as int == pr && r.1@.len() == vs.len() && (forall|j: int|
                0 <= j < vs.len() ==> #[trigger] r.1@[j]@ == vs[j]) && pos <= r.0 <= i@.len()
        }),
{
    let mut out: Vec<FieldReference> = Vec::new();
    let mut p: usize;
    match field_reference(d, i, pos) {
        None => {
            proof {
                assert(spec_field_reference_list(d, i@, pos as int).1
                    =~= Seq::<FieldRefV>::empty());
            }
            return (pos, out);
        },
        Some((p1, v)) => {
            out.push(v);
            p = p1;
        },
    }
    let ilen = i.len();
    let ghost whole = spec_field_reference_list(d, i@, pos as int);
    proof {
        assert(ilen == i@.len());
        assert(whole.0 == spec_field_refs_tail(d, i@, p as int).0);
        assert(whole.1 =~= out@.map(|j: int, l: FieldReference| l@) + spec_field_refs_tail(
            d,
            i@,
            p as int,
        ).1);
    }
    loop
        invariant
            pos <= p <= i@.len(),
            i@.len() <= usize::MAX,
            whole == spec_field_reference_list(d, i@, pos as int),
            whole.0 == spec_field_refs_tail(d, i@, p as int).0,
            whole.1 =~= out@.map(|j: int, l: FieldReference| l@) + spec_field_refs_tail(
                d,
                i@,
                p as int,
            ).1,
        decreases i@.len() - p,
    {
        let w = match ws_sep_comma(i, p) {
            Some(w) => w,
            None => {
                proof {
                    assert(spec_field_refs_tail(d, i@, p as int).1 =~= Seq::<FieldRefV>::empty());
                    assert(whole.1 =~= out@.map(|j: int, l: FieldReference| l@));
                    lemma_fr_map_index(out@, whole.1);
                }
                return (p, out);
            },
        };
        match field_reference(d, i, w) {
            Some((pe, v2)) => {
                if !(p < pe) {
                    proof {
                        assert(spec_field_refs_tail(d, i@, p as int).1
                            =~= Seq::<FieldRefV>::empty());
                        assert(whole.1 =~= out@.map(|j: int, l: FieldReference| l@));
                        lemma_fr_map_index(out@, whole.1);
                    }
                    return (p, out);
                }
                proof {
                    let (pr, rest) = spec_field_refs_tail(d, i@, pe as int);
                    assert(spec_field_refs_tail(d, i@, p as int).1 =~= seq![v2@] + rest);
                    assert((out@.map(|j: int, l: FieldReference| l@) + (seq![v2@] + rest)) =~= (
                    out@.push(v2).map(|j: int, l: FieldReference| l@) + rest));
                }
                out.push(v2);
                p = pe;
            },
            None => {
                proof {
                    assert(spec_field_refs_tail(d, i@, p as int).1 =~= Seq::<FieldRefV>::empty());
                    assert(whole.1 =~= out@.map(|j: int, l: FieldReference| l@));
                    lemma_fr_map_index(out@, whole.1);
                }
                return (p, out);
            },
        }
    }
}

proof fn lemma_fr_map_index(v: Seq<FieldReference>, m: Seq<FieldRefV>)
    requires
        m =~= v.map(|j: int, l: FieldReference| l@),
    ensures
        m.len() == v.len(),
        forall|j: int| 0 <= j < m.len() ==> #[trigger] v[j]@ == m[j],
{
    assert(forall|j: int|
        0 <= j < v.len() ==> v.map(|q: int, l: FieldReference| l@)[j] == #[trigger] v[j]@);
}

/// One SET-clause assignment: a column, an equals sign, an expression.
pub open spec fn spec_assignment_expr(d: Dialect, s: Seq<u8>, pos: int) -> Option<
    (int, (ColumnV, ExprV)),
> {
    match spec_column_identifier(d, s, pos) {
        Some((p1, c)) => match spec_ws_sep_equals(s, p1) {
            Some(p2) => match spec_expression(d, s, p2) {
                Some((p3, e)) => Some((p3, (c, e))),
                None => None,
            },
            None => None,
        },
        None => None,
    }
}

fn assignment_expr(d: Dialect, i: &[u8], pos: usize) -> (r: Option<
    (usize, (Column, Expression)),
>)
    requires
        pos <= i@.len(),
    ensures
        match r {
            Some((p2, v)) => spec_assignment_expr(d, i@, pos as int) == Some(
                (p2 as int, (v.0@, v.1@)),
            ) && pos < p2 <= i@.len(),
            None => spec_assignment_expr(d, i@, pos as int) is None,
        },
{
    let (p1, c) = match column_identifier_no_alias(d, i, pos) {
        Some(x) => x,
        None => {
            return None;
        },
    };
    let p2 = match ws_sep_equals(i, p1) {
        Some(p) => p,
        None => {
            return None;
        },
    };
    match expression(d, i, p2) {
        Some((p3, e)) => Some((p3, (c, e))),
        None => None,
    }
}

/// The tail of an assignment list.
pub open spec fn spec_assignments_tail(d: Dialect, s: Seq<u8>, pos: int) -> (
    int,
    Seq<(ColumnV, ExprV)>,
)
    decreases s.len() - pos,
{
    match spec_ws_sep_comma(s, pos) {
        Some(w) => match spec_assignment_expr(d, s, w) {
            Some((pe, v)) => {
                if pos < pe <= s.len() {
                    let (pr, rest) = spec_assignments_tail(d, s, pe);
                    (pr, seq![v] + rest)
                } else {
                    (pos, seq![])
                }
            },
            None => (pos, seq![]),
        },
        None => (pos, seq![]),
    }
}

/// A nonempty comma-separated list of SET-clause assignments.
pub open spec fn spec_assignment_expr_list(d: Dialect, s: Seq<u8>, pos: int) -> Option<
    (int, Seq<(ColumnV, ExprV)>),
> {
    match spec_assignment_expr(d, s, pos) {
        Some((p1, v)) => {
            let (pr, rest) = spec_assignments_tail(d, s, p1);
            Some((pr, seq![v] + rest))
        },
        None => None,
    }
}

/// Reads the assignments of a SET clause; at least one must stand.
pub fn assignment_expr_list(d: Dialect, i: &[u8], pos: usize) -> (r: Option<
    (usize, Vec<(Column, Expression)>),
>)
    requires
        pos <= i@.len(),
    ensures
        match r {
            Some((p2, ts)) => {
                let (pr, vs) = spec_assignment_expr_list(d, i@, pos as int)->Some_0;
                spec_assignment_expr_list(d, i@, pos as int) is Some && p2 as int == pr
                    && ts@.len() == vs.len() && (forall|j: int|
                    0 <= j < vs.len() ==> ((#[trigger] ts@[j]).0@, ts@[j].1@) == vs[j]) && pos
                    < p2 <= i@.len()
            },
            None => spec_assignment_expr_list(d, i@, pos as int) is None,
        },
{
    let mut out: Vec<(Column, Expression)> = Vec::new();
    let mut p: usize;
    match assignment_expr(d, i, pos) {
        None => {
            return None;
        },
        Some((p1, v)) => {
            out.push(v);
            p = p1;
        },
    }
    let ilen = i.len();
    let ghost whole = spec_assignment_expr_list(d, i@, pos as int)->Some_0;
    proof {
        assert(ilen == i@.len());
        assert(whole.1 =~= out@.map(|j: int, l: (Column, Expression)| (l.0@, l.1@))
            + spec_assignments_tail(d, i@, p as int).1);
    }
    loop
        invariant
            pos < p <= i@.len(),
            i@.len() <= usize::MAX,
            spec_assignment_expr_list(d, i@, pos as int) is Some,
            whole == spec_assignment_expr_list(d, i@, pos as int)->Some_0,
            whole.0 == spec_assignments_tail(d, i@, p as int).0,
            whole.1 =~= out@.map(|j: int, l: (Column, Expression)| (l.0@, l.1@))
                + spec_assignments_tail(d, i@, p as int).1,
        decreases i@.len() - p,
    {
        let w = match ws_sep_comma(i, p) {
            Some(w) => w,
            None => {
                proof {
                    assert(spec_assignments_tail(d, i@, p as int).1 =~= Seq::<
                        (ColumnV, ExprV),
                    >::empty());
                    assert(whole.1 =~= out@.map(|j: int, l: (Column, Expression)| (l.0@, l.1@)));
                    lemma_asn_map_index(out@, whole.1);
                }
                return Some((p, out));
            },
        };
        match assignment_expr(d, i, w) {
            Some((pe, v2)) => {
                proof {
                    let (pr, rest) = spec_assignments_tail(d, i@, pe as int);
                    assert(spec_assignments_tail(d, i@, p as int).1 =~= seq![(v2.0@, v2.1@)]
                        + rest);
                    assert((out@.map(|j: int, l: (Column, Expression)| (l.0@, l.1@)) + (seq![
                        (v2.0@, v2.1@),
                    ] + rest)) =~= (out@.push(v2).map(
                        |j: int, l: (Column, Expression)| (l.0@, l.1@),
                    ) + rest));
                }
                out.push(v2);
                p = pe;
            },
            None => {
                proof {
                    assert(spec_assignments_tail(d, i@, p as int).1 =~= Seq::<
                        (ColumnV, ExprV),
                    >::empty());
                    assert(whole.1 =~= out@.map(|j: int, l: (Column, Expression)| (l.0@, l.1@)));
                    lemma_asn_map_index(out@, whole.1);
                }
                return Some((p, out));
            },
        }
    }
}

proof fn lemma_asn_map_index(v: Seq<(Column, Expression)>, m: Seq<(ColumnV, ExprV)>)
    requires
        m =~= v.map(|j: int, l: (Column, Expression)| (l.0@, l.1@)),
    ensures
        m.len() == v.len(),
        forall|j: int| 0 <= j < m.len() ==> ((#[trigger] v[j]).0@, v[j].1@) == m[j],
{
    assert(forall|j: int|
        0 <= j < v.len() ==> v.map(|q: int, l: (Column, Expression)| (l.0@, l.1@))[j] == (
        (#[trigger] v[j]).0@,
        v[j].1@,
        ));
}

impl From<Expression> for FieldDefinitionExpression {
    /// Builds an entry for the expression, without an alias.
    fn from(expr: Expression) -> (r: FieldDefinitionExpression) {
        FieldDefinitionExpression::Expression { expr, alias: None }
    }
}

impl vstd::std_specs::convert::FromSpecImpl<Expression> for FieldDefinitionExpression {
    open spec fn obeys_from_spec() -> bool {
        true
    }

    open spec fn from_spec(expr: Expression) -> FieldDefinitionExpression {
        FieldDefinitionExpression::Expression { expr, alias: None }
    }
}

impl From<Column> for FieldDefinitionExpression {
    /// Builds an entry selecting the column, without an alias.
    fn from(col: Column) -> (r: FieldDefinitionExpression) {
        FieldDefinitionExpression::Expression { expr: Expression::Column(col), alias: None }
    }
}

impl vstd::std_specs::convert::FromSpecImpl<Column> for FieldDefinitionExpression {
    open spec fn obeys_from_spec() -> bool {
        true
    }

    open spec fn from_spec(col: Column) -> FieldDefinitionExpression {
        FieldDefinitionExpression::Expression { expr: Expression::Column(col), alias: None }
    }
}

impl From<Literal> for FieldDefinitionExpression {
    /// Builds an entry for the constant, without an alias.
    fn from(lit: Literal) -> (r: FieldDefinitionExpression) {
        FieldDefinitionExpression::Expression { expr: Expression::Literal(lit), alias: None }
    }
}

impl vstd::std_specs::convert::FromSpecImpl<Literal> for FieldDefinitionExpression {
    open spec fn obeys_from_spec() -> bool {
        true
    }

    open spec fn from_spec(lit: Literal) -> FieldDefinitionExpression {
        FieldDefinitionExpression::Expression { expr: Expression::Literal(lit), alias: None }
    }
}

} // verus!
