//! A compact expression layer: the function-call grammar with its named
//! aggregate forms, and the expression shapes this core feeds them — column
//! references, literals, calls and `CAST`.  The full expression grammar
//! lives outside this crate; these are the shapes its call sites need.

use vstd::prelude::*;
use crate::dialect::{function_identifier, spec_function_identifier, spec_string_literal, string_literal, Dialect};
use crate::lexical::{byte_tag, spec_byte, spec_tag_nc, spec_ws1, tag_nc, ws0, ws1, ws_end};
use crate::literal::{literal, spec_literal, Literal, LiteralV};
use crate::refs::{column_identifier_no_alias, spec_column_identifier, Column, ColumnV};
use crate::sqltype::{spec_type_identifier, type_identifier, SqlType, SqlTypeV};

verus! {

/// A function application: the named aggregate forms, `GROUP_CONCAT`, and
/// a generic call.
#[derive(Debug, PartialEq, Eq, Hash)]
pub enum FunctionExpression {
    CountStar,
    Count { expr: Box<Expression>, distinct: bool, count_nulls: bool },
    Sum { expr: Box<Expression>, distinct: bool },
    Avg { expr: Box<Expression>, distinct: bool },
    Max(Box<Expression>),
    Min(Box<Expression>),
    GroupConcat { expr: Box<Expression>, separator: String },
    Call { name: String, arguments: Vec<Expression> },
}

/// An expression as this core sees one.
#[derive(Debug, PartialEq, Eq, Hash)]
pub enum Expression {
    Column(Column),
    Literal(Literal),
    Call(FunctionExpression),
    Cast { expr: Box<Expression>, ty: SqlType, postgres_style: bool },
}

/// The mathematical shape of a function application.
pub enum FuncV {
    CountStar,
    Count { expr: Box<ExprV>, distinct: bool, count_nulls: bool },
    Sum { expr: Box<ExprV>, distinct: bool },
    Avg { expr: Box<ExprV>, distinct: bool },
    Max(Box<ExprV>),
    Min(Box<ExprV>),
    GroupConcat { expr: Box<ExprV>, separator: Seq<char> },
    Call { name: Seq<char>, arguments: Seq<ExprV> },
}

/// The mathematical shape of an expression.
pub enum ExprV {
    Column(ColumnV),
    Literal(LiteralV),
    Call(FuncV),
    Cast { expr: Box<ExprV>, ty: SqlTypeV, postgres_style: bool },
}

pub open spec fn expr_view(e: Expression) -> ExprV
    decreases e,
{
    match e {
        Expression::Column(c) => ExprV::Column(c@),
        Expression::Literal(l) => ExprV::Literal(l@),
        Expression::Call(f) => ExprV::Call(func_view(f)),
        Expression::Cast { expr, ty, postgres_style } => ExprV::Cast {
            expr: Box::new(expr_view(*expr)),
            ty: ty@,
            postgres_style,
        },
    }
}

pub open spec fn func_view(f: FunctionExpression) -> FuncV
    decreases f,
{
    match f {
        FunctionExpression::CountStar => FuncV::CountStar,
        FunctionExpression::Count { expr, distinct, count_nulls } => FuncV::Count {
            expr: Box::new(expr_view(*expr)),
            distinct,
            count_nulls,
        },
        FunctionExpression::Sum { expr, distinct } => FuncV::Sum {
            expr: Box::new(expr_view(*expr)),
            distinct,
        },
        FunctionExpression::Avg { expr, distinct } => FuncV::Avg {
            expr: Box::new(expr_view(*expr)),
            distinct,
        },
        FunctionExpression::Max(e) => FuncV::Max(Box::new(expr_view(*e))),
        FunctionExpression::Min(e) => FuncV::Min(Box::new(expr_view(*e))),
        FunctionExpression::GroupConcat { expr, separator } => FuncV::GroupConcat {
            expr: Box::new(expr_view(*expr)),
            separator: separator@,
        },
        FunctionExpression::Call { name, arguments } => FuncV::Call {
            name: name@,
            arguments: exprs_view(arguments@),
        },
    }
}

pub open spec fn exprs_view(s: Seq<Expression>) -> Seq<ExprV>
    decreases s,
{
    if s.len() == 0 {
        seq![]
    } else {
        seq![expr_view(s[0])] + exprs_view(s.drop_first())
    }
}

impl View for Expression {
    type V = ExprV;

    open spec fn view(&self) -> ExprV {
        expr_view(*self)
    }
}

impl View for FunctionExpression {
    type V = FuncV;

    open spec fn view(&self) -> FuncV {
        func_view(*self)
    }
}

/// The aggregate argument form: an optional `DISTINCT` and one
/// expression.
pub open spec fn spec_agg_function_arguments(d: Dialect, s: Seq<u8>, pos: int) -> Option<
    (int, ExprV, bool),
>
    decreases s.len() - pos, 4int,
{
    let (p1, distinct) = match spec_tag_nc(s, pos, "distinct"@) {
        Some(a) => match spec_ws1(s, a) {
            Some(w) => (w, true),
            None => (pos, false),
        },
        None => (pos, false),
    };
    if pos <= p1 <= s.len() {
        match spec_expression(d, s, p1) {
            Some((e, v)) => Some((e, v, distinct)),
            None => None,
        }
    } else {
        None
    }
}

/// The group-concat separator clause: `SEPARATOR '…'`; a missing or
/// ill-formed text leaves an empty separator.
pub open spec fn spec_group_concat_sep(d: Dialect, s: Seq<u8>, pos: int) -> Option<
    (int, Seq<char>),
> {
    let w = ws_end(s, pos);
    match spec_tag_nc(s, w, "separator"@) {
        Some(a) => {
            let w2 = ws_end(s, a);
            match spec_string_literal(d, s, w2) {
                Some((e, bytes)) => {
                    if vstd::utf8::valid_utf8(bytes) {
                        Some((ws_end(s, e), vstd::utf8::decode_utf8(bytes)))
                    } else {
                        Some((w2, Seq::<char>::empty()))
                    }
                },
                None => Some((w2, Seq::<char>::empty())),
            }
        },
        None => None,
    }
}

/// The generic call argument list between parentheses: expressions
/// separated by commas with optional whitespace around each.
pub open spec fn spec_fx_args(d: Dialect, s: Seq<u8>, pos: int) -> (int, Seq<ExprV>)
    decreases s.len() - pos, 4int,
{
    let w = ws_end(s, pos);
    if pos <= w <= s.len() {
        match spec_expression(d, s, w) {
            Some((p1, v)) => {
                let w2 = ws_end(s, p1);
                if pos < w2 <= s.len() {
                    let (pr, rest) = spec_fx_args_tail(d, s, w2);
                    (pr, seq![v] + rest)
                } else {
                    (pos, seq![])
                }
            },
            None => (pos, seq![]),
        }
    } else {
        (pos, seq![])
    }
}

pub open spec fn spec_fx_args_tail(d: Dialect, s: Seq<u8>, pos: int) -> (int, Seq<ExprV>)
    decreases s.len() - pos, 0int,
{
    match spec_byte(s, pos, 0x2c) {
        Some(pc) => {
            let w = ws_end(s, pc);
            if pos < w <= s.len() || pc <= w <= s.len() {
                match spec_expression(d, s, w) {
                    Some((p1, v)) => {
                        let w2 = ws_end(s, p1);
                        if pos < w2 <= s.len() {
                            let (pr, rest) = spec_fx_args_tail(d, s, w2);
                            (pr, seq![v] + rest)
                        } else {
                            (pos, seq![])
                        }
                    },
                    None => (pos, seq![]),
                }
            } else {
                (pos, seq![])
            }
        },
        None => (pos, seq![]),
    }
}

/// The ordered function-call alternation: `COUNT(*)`, the named
/// aggregates, `GROUP_CONCAT`, then any dialect-recognized name with a
/// parenthesized argument list.
pub open spec fn spec_column_function(d: Dialect, s: Seq<u8>, pos: int) -> Option<(int, FuncV)>
    decreases s.len() - pos, 2int,
{
    if spec_tag_nc(s, pos, "count(*)"@) is Some {
        Some((spec_tag_nc(s, pos, "count(*)"@)->Some_0, FuncV::CountStar))
    } else if spec_agg_call(d, s, pos, "count"@) is Some {
        let (e, v, distinct) = spec_agg_call(d, s, pos, "count"@)->Some_0;
        Some((e, FuncV::Count { expr: Box::new(v), distinct, count_nulls: false }))
    } else if spec_agg_call(d, s, pos, "sum"@) is Some {
        let (e, v, distinct) = spec_agg_call(d, s, pos, "sum"@)->Some_0;
        Some((e, FuncV::Sum { expr: Box::new(v), distinct }))
    } else if spec_agg_call(d, s, pos, "avg"@) is Some {
        let (e, v, distinct) = spec_agg_call(d, s, pos, "avg"@)->Some_0;
        Some((e, FuncV::Avg { expr: Box::new(v), distinct }))
    } else if spec_agg_call(d, s, pos, "max"@) is Some {
        let (e, v, _distinct) = spec_agg_call(d, s, pos, "max"@)->Some_0;
        Some((e, FuncV::Max(Box::new(v))))
    } else if spec_agg_call(d, s, pos, "min"@) is Some {
        let (e, v, _distinct) = spec_agg_call(d, s, pos, "min"@)->Some_0;
        Some((e, FuncV::Min(Box::new(v))))
    } else if spec_group_concat(d, s, pos) is Some {
        let (e, c, sep) = spec_group_concat(d, s, pos)->Some_0;
        Some(
            (
                e,
                FuncV::GroupConcat {
                    expr: Box::new(ExprV::Column(c)),
                    separator: match sep {
                        Some(t) => t,
                        None => ","@,
                    },
                },
            ),
        )
    } else {
        match spec_function_identifier(s, pos) {
            Some((p1, name)) => {
                let w = ws_end(s, p1);
                match spec_byte(s, w, 0x28) {
                    Some(p2) => {
                        if pos < p2 <= s.len() {
                            let (pe, args) = spec_fx_args(d, s, p2);
                            match spec_byte(s, pe, 0x29) {
                                Some(p3) => Some(
                                    (p3, FuncV::Call { name, arguments: args }),
                                ),
                                None => None,
                            }
                        } else {
                            None
                        }
                    },
                    None => None,
                }
            },
            None => None,
        }
    }
}

/// One named aggregate: the keyword, a parenthesized aggregate argument.
pub open spec fn spec_agg_call(d: Dialect, s: Seq<u8>, pos: int, kw: Seq<char>) -> Option<
    (int, ExprV, bool),
>
    decreases s.len() - pos, 1int,
{
    match spec_tag_nc(s, pos, kw) {
        Some(p1) => match spec_byte(s, p1, 0x28) {
            Some(p2) => {
                if pos < p2 <= s.len() {
                    match spec_agg_function_arguments(d, s, p2) {
                        Some((e, v, distinct)) => match spec_byte(s, e, 0x29) {
                            Some(p3) => Some((p3, v, distinct)),
                            None => None,
                        },
                        None => None,
                    }
                } else {
                    None
                }
            },
            None => None,
        },
        None => None,
    }
}

/// The `GROUP_CONCAT(column [SEPARATOR '…'])` form.
pub open spec fn spec_group_concat(d: Dialect, s: Seq<u8>, pos: int) -> Option<
    (int, ColumnV, Option<Seq<char>>),
> {
    match spec_tag_nc(s, pos, "group_concat"@) {
        Some(p1) => match spec_byte(s, p1, 0x28) {
            Some(p2) => match spec_column_identifier(d, s, p2) {
                Some((p3, c)) => {
                    let (p4, sep) = match spec_group_concat_sep(d, s, p3) {
                        Some((e, t)) => (e, Some(t)),
                        None => (p3, None::<Seq<char>>),
                    };
                    match spec_byte(s, p4, 0x29) {
                        Some(p5) => Some((p5, c, sep)),
                        None => None,
                    }
                },
                None => None,
            },
            None => None,
        },
        None => None,
    }
}

/// An expression: `CAST`, a function call, a literal, or a column, in
/// that order.
pub open spec fn spec_expression(d: Dialect, s: Seq<u8>, pos: int) -> Option<(int, ExprV)>
    decreases s.len() - pos, 3int,
{
    if spec_cast(d, s, pos) is Some {
        spec_cast(d, s, pos)
    } else if spec_column_function(d, s, pos) is Some {
        let (e, f) = spec_column_function(d, s, pos)->Some_0;
        Some((e, ExprV::Call(f)))
    } else if spec_literal(d, s, pos) is Some {
        let (e, l) = spec_literal(d, s, pos)->Some_0;
        Some((e, ExprV::Literal(l)))
    } else {
        match spec_column_identifier(d, s, pos) {
            Some((e, c)) => Some((e, ExprV::Column(c))),
            None => None,
        }
    }
}

/// `CAST(expr AS type)`.
pub open spec fn spec_cast(d: Dialect, s: Seq<u8>, pos: int) -> Option<(int, ExprV)>
    decreases s.len() - pos, 2int,
{
    match spec_tag_nc(s, pos, "cast"@) {
        Some(p1) => {
            let w0 = ws_end(s, p1);
            match spec_byte(s, w0, 0x28) {
                Some(p2) => {
                    let w = ws_end(s, p2);
                    if pos < w <= s.len() {
                        match spec_expression(d, s, w) {
                            Some((p3, v)) => {
                                match spec_ws1(s, p3) {
                                    Some(w2) => match spec_tag_nc(s, w2, "as"@) {
                                        Some(p4) => match spec_ws1(s, p4) {
                                            Some(w3) => match spec_type_identifier(d, s, w3) {
                                                Some((p5, ty)) => {
                                                    let w4 = ws_end(s, p5);
                                                    match spec_byte(s, w4, 0x29) {
                                                        Some(p6) => Some(
                                                            (
                                                                p6,
                                                                ExprV::Cast {
                                                                    expr: Box::new(v),
                                                                    ty,
                                                                    postgres_style: false,
                                                                },
                                                            ),
                                                        ),
                                                        None => None,
                                                    }
                                                },
                                                None => None,
                                            },
                                            None => None,
                                        },
                                        None => None,
                                    },
                                    None => None,
                                }
                            },
                            None => None,
                        }
                    } else {
                        None
                    }
                },
                None => None,
            }
        },
        None => None,
    }
}

/// Reads the aggregate argument form, returning also whether `DISTINCT`
/// stood.
pub fn agg_function_arguments(d: Dialect, i: &[u8], pos: usize) -> (r: Option<
    (usize, Expression, bool),
>)
    requires
        pos <= i@.len(),
    ensures
        match r {
            Some((p2, v, distinct)) => spec_agg_function_arguments(d, i@, pos as int) == Some(
                (p2 as int, v@, distinct),
            ) && pos <= p2 <= i@.len(),
            None => spec_agg_function_arguments(d, i@, pos as int) is None,
        },
    decreases i@.len() - pos, 4int,
{
    proof {
        reveal_strlit("distinct");
    }
    let (p1, distinct) = match tag_nc(i, pos, "distinct") {
        Some(a) => match ws1(i, a) {
            Some(w) => (w, true),
            None => (pos, false),
        },
        None => (pos, false),
    };
    match expression(d, i, p1) {
        Some((e, v)) => Some((e, v, distinct)),
        None => None,
    }
}

/// Reads the group-concat separator clause.
fn group_concat_sep(d: Dialect, i: &[u8], pos: usize) -> (r: Option<(usize, String)>)
    requires
        pos <= i@.len(),
    ensures
        match r {
            Some((p2, v)) => spec_group_concat_sep(d, i@, pos as int) == Some((p2 as int, v@))
                && pos <= p2 <= i@.len(),
            None => spec_group_concat_sep(d, i@, pos as int) is None,
        },
{
    proof {
        reveal_strlit("separator");
    }
    let w = ws0(i, pos);
    let a = match tag_nc(i, w, "separator") {
        Some(a) => a,
        None => {
            return None;
        },
    };
    let w2 = ws0(i, a);
    match string_literal(d, i, w2) {
        Some((e, bytes)) => {
            match crate::dialect::bytes_to_string(&bytes) {
                Some(t) => Some((ws0(i, e), t)),
                None => Some((w2, String::new())),
            }
        },
        None => Some((w2, String::new())),
    }
}

/// Reads one named aggregate call.
fn agg_call(d: Dialect, i: &[u8], pos: usize, kw: &str) -> (r: Option<(usize, Expression, bool)>)
    requires
        pos <= i@.len(),
    ensures
        match r {
            Some((p2, v, distinct)) => spec_agg_call(d, i@, pos as int, kw@) == Some(
                (p2 as int, v@, distinct),
            ) && pos <= p2 <= i@.len(),
            None => spec_agg_call(d, i@, pos as int, kw@) is None,
        },
    decreases i@.len() - pos, 1int,
{
    let p1 = match tag_nc(i, pos, kw) {
        Some(p) => p,
        None => {
            return None;
        },
    };
    let p2 = match byte_tag(i, p1, 0x28) {
        Some(p) => p,
        None => {
            return None;
        },
    };
    match agg_function_arguments(d, i, p2) {
        Some((e, v, distinct)) => {
            match byte_tag(i, e, 0x29) {
                Some(p3) => Some((p3, v, distinct)),
                None => None,
            }
        },
        None => None,
    }
}

proof fn lemma_exprs_view_push(s: Seq<Expression>, e: Expression)
    ensures
        exprs_view(s.push(e)) == exprs_view(s) + seq![expr_view(e)],
    decreases s.len(),
{
    if s.len() == 0 {
        assert(s.push(e).drop_first() =~= Seq::<Expression>::empty());
        assert(s.push(e)[0] == e);
        assert(exprs_view(Seq::<Expression>::empty()) =~= Seq::<ExprV>::empty());
        assert(exprs_view(s.push(e)) =~= exprs_view(s) + seq![expr_view(e)]);
    } else {
        assert(s.push(e).drop_first() =~= s.drop_first().push(e));
        assert(s.push(e)[0] == s[0]);
        lemma_exprs_view_push(s.drop_first(), e);
        assert(exprs_view(s.push(e)) =~= exprs_view(s) + seq![expr_view(e)]);
    }
}

/// Reads the parenthesized generic-call arguments, the opening parenthesis
/// already consumed.
fn fx_args(d: Dialect, i: &[u8], pos: usize) -> (r: (usize, Vec<Expression>))
    requires
        pos <= i@.len(),
    ensures
        ({
            let (pr, vs) = spec_fx_args(d, i@, pos as int);
            r.0 as int == pr && exprs_view(r.1@) == vs && pos <= r.0 <= i@.len()
        }),
    decreases i@.len() - pos, 4int,
{
    let mut out: Vec<Expression> = Vec::new();
    let w = ws0(i, pos);
    let mut p: usize;
    match expression(d, i, w) {
        None => {
            proof {
                assert(exprs_view(out@) =~= spec_fx_args(d, i@, pos as int).1);
            }
            return (pos, out);
        },
        Some((p1, v)) => {
            let w2 = ws0(i, p1);
            if !(pos < w2) {
                proof {
                    assert(exprs_view(out@) =~= spec_fx_args(d, i@, pos as int).1);
                }
                return (pos, out);
            }
            out.push(v);
            p = w2;
            proof {
                lemma_exprs_view_push(Seq::<Expression>::empty(), v);
                assert(out@ =~= Seq::<Expression>::empty().push(v));
                assert(exprs_view(Seq::<Expression>::empty()) =~= Seq::<ExprV>::empty());
            }
        },
    }
    let ilen = i.len();
    let ghost whole = spec_fx_args(d, i@, pos as int);
    proof {
        assert(ilen == i@.len());
        assert(whole.0 == spec_fx_args_tail(d, i@, p as int).0);
        assert(whole.1 =~= exprs_view(out@) + spec_fx_args_tail(d, i@, p as int).1);
    }
    loop
        invariant
            pos < p <= i@.len(),
            i@.len() <= usize::MAX,
            whole == spec_fx_args(d, i@, pos as int),
            whole.0 == spec_fx_args_tail(d, i@, p as int).0,
            whole.1 =~= exprs_view(out@) + spec_fx_args_tail(d, i@, p as int).1,
        decreases i@.len() - p,
    {
        let pc = match byte_tag(i, p, 0x2c) {
            Some(pc) => pc,
            None => {
                proof {
                    assert(spec_fx_args_tail(d, i@, p as int).1 =~= Seq::<ExprV>::empty());
                    assert(whole.1 =~= exprs_view(out@) + Seq::<ExprV>::empty());
                    assert(whole.1 =~= exprs_view(out@));
                }
                return (p, out);
            },
        };
        let w = ws0(i, pc);
        match expression(d, i, w) {
            Some((pe, v2)) => {
                let w2 = ws0(i, pe);
                proof {
                    let (pr, rest) = spec_fx_args_tail(d, i@, w2 as int);
                    assert(spec_fx_args_tail(d, i@, p as int).1 =~= seq![v2@] + rest);
                    lemma_exprs_view_push(out@, v2);
                    assert((exprs_view(out@) + (seq![v2@] + rest)) =~= (exprs_view(out@.push(v2))
                        + rest));
                }
                out.push(v2);
                p = w2;
            },
            None => {
                proof {
                    assert(spec_fx_args_tail(d, i@, p as int).1 =~= Seq::<ExprV>::empty());
                    assert(whole.1 =~= exprs_view(out@) + Seq::<ExprV>::empty());
                    assert(whole.1 =~= exprs_view(out@));
                }
                return (p, out);
            },
        }
    }
}

/// Reads an aggregate or generic function call, in the grammar's order.
#[verifier::rlimit(100)]
pub fn column_function(d: Dialect, i: &[u8], pos: usize) -> (r: Option<
    (usize, FunctionExpression),
>)
    requires
        pos <= i@.len(),
    ensures
        match r {
            Some((p2, v)) => spec_column_function(d, i@, pos as int) == Some((p2 as int, v@))
                && pos <= p2 <= i@.len(),
            None => spec_column_function(d, i@, pos as int) is None,
        },
    decreases i@.len() - pos, 2int,
{
    proof {
        reveal_strlit("count(*)");
        reveal_strlit("count");
        reveal_strlit("sum");
        reveal_strlit("avg");
        reveal_strlit("max");
        reveal_strlit("min");
        reveal_strlit("group_concat");
    }
    if let Some(e) = tag_nc(i, pos, "count(*)") {
        return Some((e, FunctionExpression::CountStar));
    }
    if let Some((e, v, distinct)) = agg_call(d, i, pos, "count") {
        return Some(
            (
                e,
                FunctionExpression::Count {
                    expr: Box::new(v),
                    distinct,
                    count_nulls: false,
                },
            ),
        );
    }
    if let Some((e, v, distinct)) = agg_call(d, i, pos, "sum") {
        return Some((e, FunctionExpression::Sum { expr: Box::new(v), distinct }));
    }
    if let Some((e, v, distinct)) = agg_call(d, i, pos, "avg") {
        return Some((e, FunctionExpression::Avg { expr: Box::new(v), distinct }));
    }
    if let Some((e, v, _distinct)) = agg_call(d, i, pos, "max") {
        return Some((e, FunctionExpression::Max(Box::new(v))));
    }
    if let Some((e, v, _distinct)) = agg_call(d, i, pos, "min") {
        return Some((e, FunctionExpression::Min(Box::new(v))));
    }
    if let Some((p5, f)) = group_concat_call(d, i, pos) {
        return Some((p5, f));
    }
    let (p1, name) = match function_identifier(i, pos) {
        Some(x) => x,
        None => {
            return None;
        },
    };
    let w = ws0(i, p1);
    let p2 = match byte_tag(i, w, 0x28) {
        Some(p) => p,
        None => {
            return None;
        },
    };
    let (pe, args) = fx_args(d, i, p2);
    match byte_tag(i, pe, 0x29) {
        Some(p3) => Some((p3, FunctionExpression::Call { name, arguments: args })),
        None => None,
    }
}

/// Reads a `CAST(expr AS type)` form.
fn cast_expr(d: Dialect, i: &[u8], pos: usize) -> (r: Option<(usize, Expression)>)
    requires
        pos <= i@.len(),
    ensures
        match r {
            Some((p2, v)) => spec_cast(d, i@, pos as int) == Some((p2 as int, v@)) && pos <= p2
                <= i@.len(),
            None => spec_cast(d, i@, pos as int) is None,
        },
    decreases i@.len() - pos, 2int,
{
    proof {
        reveal_strlit("cast");
        reveal_strlit("as");
    }
    let p1 = match tag_nc(i, pos, "cast") {
        Some(p) => p,
        None => {
            return None;
        },
    };
    let w0 = ws0(i, p1);
    let p2 = match byte_tag(i, w0, 0x28) {
        Some(p) => p,
        None => {
            return None;
        },
    };
    let w = ws0(i, p2);
    let (p3, v) = match expression(d, i, w) {
        Some(x) => x,
        None => {
            return None;
        },
    };
    let w2 = match ws1(i, p3) {
        Some(w) => w,
        None => {
            return None;
        },
    };
    let p4 = match tag_nc(i, w2, "as") {
        Some(p) => p,
        None => {
            return None;
        },
    };
    let w3 = match ws1(i, p4) {
        Some(w) => w,
        None => {
            return None;
        },
    };
    let (p5, ty) = match type_identifier(d, i, w3) {
        Some(x) => x,
        None => {
            return None;
        },
    };
    let w4 = ws0(i, p5);
    match byte_tag(i, w4, 0x29) {
        Some(p6) => Some(
            (p6, Expression::Cast { expr: Box::new(v), ty, postgres_style: false }),
        ),
        None => None,
    }
}

/// Reads an expression of the shapes this core knows.
pub fn expression(d: Dialect, i: &[u8], pos: usize) -> (r: Option<(usize, Expression)>)
    requires
        pos <= i@.len(),
    ensures
        match r {
            Some((p2, v)) => spec_expression(d, i@, pos as int) == Some((p2 as int, v@)) && pos
                <= p2 <= i@.len(),
            None => spec_expression(d, i@, pos as int) is None,
        },
    decreases i@.len() - pos, 3int,
{
    if let Some((p2, v)) = cast_expr(d, i, pos) {
        return Some((p2, v));
    }
    if let Some((p2, f)) = column_function(d, i, pos) {
        return Some((p2, Expression::Call(f)));
    }
    if let Some((p2, l)) = literal(d, i, pos) {
        return Some((p2, Expression::Literal(l)));
    }
    match column_identifier_no_alias(d, i, pos) {
        Some((p2, c)) => Some((p2, Expression::Column(c))),
        None => None,
    }
}

/// Reads the `GROUP_CONCAT(column [SEPARATOR '…'])` form, with the comma
/// default when the clause is absent.
fn group_concat_call(d: Dialect, i: &[u8], pos: usize) -> (r: Option<
    (usize, FunctionExpression),
>)
    requires
        pos <= i@.len(),
    ensures
        match r {
            Some((p2, f)) => spec_group_concat(d, i@, pos as int) is Some && ({
                let (e, c, sep) = spec_group_concat(d, i@, pos as int)->Some_0;
                p2 as int == e && f@ == FuncV::GroupConcat {
                    expr: Box::new(ExprV::Column(c)),
                    separator: match sep {
                        Some(t) => t,
                        None => ","@,
                    },
                }
            }) && pos <= p2 <= i@.len(),
            None => spec_group_concat(d, i@, pos as int) is None,
        },
{
    proof {
        reveal_strlit("group_concat");
        reveal_strlit(",");
    }
    let p1 = match tag_nc(i, pos, "group_concat") {
        Some(p) => p,
        None => {
            return None;
        },
    };
    let p2 = match byte_tag(i, p1, 0x28) {
        Some(p) => p,
        None => {
            return None;
        },
    };
    let (p3, c) = match column_identifier_no_alias(d, i, p2) {
        Some(x) => x,
        None => {
            return None;
        },
    };
    let (p4, sep) = match group_concat_sep(d, i, p3) {
        Some((e, t)) => (e, Some(t)),
        None => (p3, None),
    };
    let p5 = match byte_tag(i, p4, 0x29) {
        Some(p) => p,
        None => {
            return None;
        },
    };
    let separator = match sep {
        Some(t) => t,
        None => ",".to_owned(),
    };
    Some(
        (
            p5,
            FunctionExpression::GroupConcat {
                expr: Box::new(Expression::Column(c)),
                separator,
            },
        ),
    )
}

/// Whether the expression's text can be produced: every embedded literal
/// and type must be renderable.
pub open spec fn expr_renderable(e: ExprV) -> bool
    decreases e,
{
    match e {
        ExprV::Column(_c) => true,
        ExprV::Literal(l) => crate::literal::spec_renderable(l),
        ExprV::Call(f) => func_renderable(f),
        ExprV::Cast { expr, ty, postgres_style: _ } => expr_renderable(*expr)
            && crate::sqltype::spec_type_renderable(ty),
    }
}

pub open spec fn func_renderable(f: FuncV) -> bool
    decreases f,
{
    match f {
        FuncV::CountStar => true,
        FuncV::Count { expr, .. } => expr_renderable(*expr),
        FuncV::Sum { expr, .. } => expr_renderable(*expr),
        FuncV::Avg { expr, .. } => expr_renderable(*expr),
        FuncV::Max(e) => expr_renderable(*e),
        FuncV::Min(e) => expr_renderable(*e),
        FuncV::GroupConcat { expr, .. } => expr_renderable(*expr),
        FuncV::Call { name: _, arguments } => exprs_renderable(arguments),
    }
}

pub open spec fn exprs_renderable(s: Seq<ExprV>) -> bool
    decreases s,
{
    if s.len() == 0 {
        true
    } else {
        expr_renderable(s[0]) && exprs_renderable(s.drop_first())
    }
}

/// The rendered text of a column reference.
pub open spec fn spec_column_bytes(c: ColumnV) -> Seq<u8> {
    match c.table {
        Some(t) => crate::refs::spec_quoted_name(t) + seq![0x2eu8] + crate::refs::spec_quoted_name(
            c.name,
        ),
        None => crate::refs::spec_quoted_name(c.name),
    }
}

/// The rendered text of an expression, in this crate's own compact form.
pub open spec fn spec_expr_bytes(e: ExprV) -> Seq<u8>
    decreases e,
{
    match e {
        ExprV::Column(c) => spec_column_bytes(c),
        ExprV::Literal(l) => crate::literal::spec_literal_bytes(l),
        ExprV::Call(f) => spec_func_bytes(f),
        ExprV::Cast { expr, ty, postgres_style: _ } => crate::lexical::kw_bytes("CAST("@)
            + spec_expr_bytes(*expr) + crate::lexical::kw_bytes(" AS "@)
            + crate::sqltype::spec_sqltype_bytes(ty) + seq![0x29u8],
    }
}

/// The rendered text of a function application.
pub open spec fn spec_func_bytes(f: FuncV) -> Seq<u8>
    decreases f,
{
    match f {
        FuncV::CountStar => crate::lexical::kw_bytes("count(*)"@),
        FuncV::Count { expr, distinct, count_nulls: _ } => crate::lexical::kw_bytes("count("@)
            + spec_distinct(distinct) + spec_expr_bytes(*expr) + seq![0x29u8],
        FuncV::Sum { expr, distinct } => crate::lexical::kw_bytes("sum("@) + spec_distinct(
            distinct,
        ) + spec_expr_bytes(*expr) + seq![0x29u8],
        FuncV::Avg { expr, distinct } => crate::lexical::kw_bytes("avg("@) + spec_distinct(
            distinct,
        ) + spec_expr_bytes(*expr) + seq![0x29u8],
        FuncV::Max(e) => crate::lexical::kw_bytes("max("@) + spec_expr_bytes(*e) + seq![0x29u8],
        FuncV::Min(e) => crate::lexical::kw_bytes("min("@) + spec_expr_bytes(*e) + seq![0x29u8],
        FuncV::GroupConcat { expr, separator } => crate::lexical::kw_bytes("group_concat("@)
            + spec_expr_bytes(*expr) + crate::lexical::kw_bytes(" separator '"@)
            + vstd::utf8::encode_utf8(separator) + crate::lexical::kw_bytes("')"@),
        FuncV::Call { name, arguments } => vstd::utf8::encode_utf8(name) + seq![0x28u8]
            + spec_args_bytes(arguments) + seq![0x29u8],
    }
}

pub open spec fn spec_distinct(distinct: bool) -> Seq<u8> {
    if distinct {
        crate::lexical::kw_bytes("distinct "@)
    } else {
        seq![]
    }
}

/// Argument texts joined by a comma and space.
pub open spec fn spec_args_bytes(s: Seq<ExprV>) -> Seq<u8>
    decreases s,
{
    if s.len() == 0 {
        seq![]
    } else if s.len() == 1 {
        spec_expr_bytes(s[0])
    } else {
        spec_expr_bytes(s[0]) + seq![0x2cu8, 0x20u8] + spec_args_bytes(s.drop_first())
    }
}

/// The argument join over the first `k` arguments.
pub open spec fn spec_args_prefix(s: Seq<ExprV>, k: int) -> Seq<u8>
    decreases k,
{
    if k <= 0 {
        seq![]
    } else if k == 1 {
        spec_expr_bytes(s[0])
    } else {
        spec_args_prefix(s, k - 1) + seq![0x2cu8, 0x20u8] + spec_expr_bytes(s[k - 1])
    }
}

proof fn lemma_args_prefix_full(s: Seq<ExprV>)
    ensures
        spec_args_prefix(s, s.len() as int) == spec_args_bytes(s),
    decreases s.len(),
{
    if s.len() <= 1 {
    } else {
        lemma_args_prefix_full(s.drop_first());
        lemma_args_prefix_shift(s, s.len() as int);
    }
}

proof fn lemma_args_prefix_shift(s: Seq<ExprV>, k: int)
    requires
        2 <= k <= s.len(),
    ensures
        spec_args_prefix(s, k) == spec_expr_bytes(s[0]) + seq![0x2cu8, 0x20u8] + spec_args_prefix(
            s.drop_first(),
            k - 1,
        ),
    decreases k,
{
    if k == 2 {
        assert(s.drop_first()[0] == s[1]);
        assert(spec_args_prefix(s.drop_first(), 1) == spec_expr_bytes(s[1]));
        assert(spec_args_prefix(s, 1) == spec_expr_bytes(s[0]));
        assert(spec_args_prefix(s, 2) =~= spec_expr_bytes(s[0]) + seq![0x2cu8, 0x20u8]
            + spec_args_prefix(s.drop_first(), 1));
    } else {
        lemma_args_prefix_shift(s, k - 1);
        assert(s.drop_first()[k - 2] == s[k - 1]);
        assert((spec_expr_bytes(s[0]) + seq![0x2cu8, 0x20u8] + spec_args_prefix(
            s.drop_first(),
            k - 2,
        )) + seq![0x2cu8, 0x20u8] + spec_expr_bytes(s[k - 1]) =~= spec_expr_bytes(s[0])
            + seq![0x2cu8, 0x20u8] + (spec_args_prefix(s.drop_first(), k - 2)
            + seq![0x2cu8, 0x20u8] + spec_expr_bytes(s[k - 1])));
    }
}


/// A structural size for termination of the renderers.
pub open spec fn ev_size(e: ExprV) -> nat
    decreases e,
{
    match e {
        ExprV::Column(_c) => 1,
        ExprV::Literal(_l) => 1,
        ExprV::Call(f) => 1 + fv_size(f),
        ExprV::Cast { expr, .. } => 1 + ev_size(*expr),
    }
}

pub open spec fn fv_size(f: FuncV) -> nat
    decreases f,
{
    match f {
        FuncV::CountStar => 1,
        FuncV::Count { expr, .. } => 1 + ev_size(*expr),
        FuncV::Sum { expr, .. } => 1 + ev_size(*expr),
        FuncV::Avg { expr, .. } => 1 + ev_size(*expr),
        FuncV::Max(e) => 1 + ev_size(*e),
        FuncV::Min(e) => 1 + ev_size(*e),
        FuncV::GroupConcat { expr, .. } => 1 + ev_size(*expr),
        FuncV::Call { name: _, arguments } => 1 + evs_size(arguments),
    }
}

pub open spec fn evs_size(s: Seq<ExprV>) -> nat
    decreases s,
{
    if s.len() == 0 {
        0
    } else {
        ev_size(s[0]) + evs_size(s.drop_first())
    }
}

proof fn lemma_evs_size_elem(s: Seq<ExprV>, j: int)
    requires
        0 <= j < s.len(),
    ensures
        ev_size(s[j]) <= evs_size(s),
    decreases s.len(),
{
    if j == 0 {
    } else {
        lemma_evs_size_elem(s.drop_first(), j - 1);
        assert(s.drop_first()[j - 1] == s[j]);
    }
}

impl Expression {
    /// Whether `sql_bytes` accepts this expression.
    pub open spec fn renderable(&self) -> bool {
        expr_renderable(self@)
    }

    /// The rendered text of this expression, as bytes.
    pub fn sql_bytes(&self) -> (r: Vec<u8>)
        requires
            self.renderable(),
        ensures
            r@ == spec_expr_bytes(self@),
        decreases ev_size(self@),
    {
        proof {
            reveal_strlit("CAST(");
            reveal_strlit(" AS ");
        }
        let mut out: Vec<u8> = Vec::new();
        match self {
            Expression::Column(c) => {
                match &c.table {
                    Some(t) => {
                        crate::refs::push_quoted_name(&mut out, t);
                        out.push(0x2e);
                        crate::refs::push_quoted_name(&mut out, &c.name);
                        proof {
                            assert(out@ =~= spec_expr_bytes(self@));
                        }
                    },
                    None => {
                        crate::refs::push_quoted_name(&mut out, &c.name);
                        proof {
                            assert(out@ =~= spec_expr_bytes(self@));
                        }
                    },
                }
            },
            Expression::Literal(l) => {
                let t = l.sql_bytes();
                crate::lexical::push_bytes(&mut out, t.as_slice());
                proof {
                    assert(out@ =~= spec_expr_bytes(self@));
                }
            },
            Expression::Call(f) => {
                proof {
                    assert(self@ == ExprV::Call(f@));
                }
                let t = f.sql_bytes();
                crate::lexical::push_bytes(&mut out, t.as_slice());
                proof {
                    assert(out@ =~= spec_expr_bytes(self@));
                }
            },
            Expression::Cast { expr, ty, postgres_style: _ } => {
                crate::lexical::push_str_bytes(&mut out, "CAST(");
                proof {
                    assert(ev_size(self@) == 1 + ev_size(expr@));
                }
                let t = expr.sql_bytes();
                crate::lexical::push_bytes(&mut out, t.as_slice());
                crate::lexical::push_str_bytes(&mut out, " AS ");
                let t2 = ty.sql_bytes();
                crate::lexical::push_bytes(&mut out, t2.as_slice());
                out.push(0x29);
                proof {
                    assert(out@ =~= spec_expr_bytes(self@));
                }
            },
        }
        out
    }
}

impl FunctionExpression {
    /// Whether `sql_bytes` accepts this application.
    pub open spec fn renderable(&self) -> bool {
        func_renderable(self@)
    }

    /// The rendered text of this application, as bytes.
    #[verifier::rlimit(100)]
    pub fn sql_bytes(&self) -> (r: Vec<u8>)
        requires
            self.renderable(),
        ensures
            r@ == spec_func_bytes(self@),
        decreases fv_size(self@),
    {
        proof {
            reveal_strlit("count(*)");
            reveal_strlit("count(");
            reveal_strlit("sum(");
            reveal_strlit("avg(");
            reveal_strlit("max(");
            reveal_strlit("min(");
            reveal_strlit("group_concat(");
            reveal_strlit(" separator '");
            reveal_strlit("')");
            reveal_strlit("distinct ");
        }
        let mut out: Vec<u8> = Vec::new();
        match self {
            FunctionExpression::CountStar => {
                crate::lexical::push_str_bytes(&mut out, "count(*)");
            },
            FunctionExpression::Count { expr, distinct, count_nulls: _ } => {
                crate::lexical::push_str_bytes(&mut out, "count(");
                if *distinct {
                    crate::lexical::push_str_bytes(&mut out, "distinct ");
                }
                let t = expr.sql_bytes();
                crate::lexical::push_bytes(&mut out, t.as_slice());
                out.push(0x29);
                proof {
                    assert(out@ =~= spec_func_bytes(self@));
                }
            },
            FunctionExpression::Sum { expr, distinct } => {
                crate::lexical::push_str_bytes(&mut out, "sum(");
                if *distinct {
                    crate::lexical::push_str_bytes(&mut out, "distinct ");
                }
                let t = expr.sql_bytes();
                crate::lexical::push_bytes(&mut out, t.as_slice());
                out.push(0x29);
                proof {
                    assert(out@ =~= spec_func_bytes(self@));
                }
            },
            FunctionExpression::Avg { expr, distinct } => {
                crate::lexical::push_str_bytes(&mut out, "avg(");
                if *distinct {
                    crate::lexical::push_str_bytes(&mut out, "distinct ");
                }
                let t = expr.sql_bytes();
                crate::lexical::push_bytes(&mut out, t.as_slice());
                out.push(0x29);
                proof {
                    assert(out@ =~= spec_func_bytes(self@));
                }
            },
            FunctionExpression::Max(e) => {
                crate::lexical::push_str_bytes(&mut out, "max(");
                let t = e.sql_bytes();
                crate::lexical::push_bytes(&mut out, t.as_slice());
                out.push(0x29);
                proof {
                    assert(out@ =~= spec_func_bytes(self@));
                }
            },
            FunctionExpression::Min(e) => {
                crate::lexical::push_str_bytes(&mut out, "min(");
                let t = e.sql_bytes();
                crate::lexical::push_bytes(&mut out, t.as_slice());
                out.push(0x29);
                proof {
                    assert(out@ =~= spec_func_bytes(self@));
                }
            },
            FunctionExpression::GroupConcat { expr, separator } => {
                broadcast use vstd::string::is_ascii_spec_bytes;

                crate::lexical::push_str_bytes(&mut out, "group_concat(");
                let t = expr.sql_bytes();
                crate::lexical::push_bytes(&mut out, t.as_slice());
                crate::lexical::push_str_bytes(&mut out, " separator '");
                crate::lexical::push_bytes(&mut out, separator.as_str().as_bytes());
                crate::lexical::push_str_bytes(&mut out, "')");
                proof {
                    assert(out@ =~= spec_func_bytes(self@));
                }
            },
            FunctionExpression::Call { name, arguments } => {
                broadcast use vstd::string::is_ascii_spec_bytes;

                crate::lexical::push_bytes(&mut out, name.as_str().as_bytes());
                out.push(0x28);
                let ghost head = out@;
                let ghost m = exprs_view(arguments@);
                proof {
                    assert(self@ == FuncV::Call { name: name@, arguments: m });
                    lemma_exprs_renderable_index(arguments@, m);
                }
                let mut j: usize = 0;
                while j < arguments.len()
                    invariant
                        *self == (FunctionExpression::Call {
                            name: *name,
                            arguments: *arguments,
                        }),
                        j <= arguments@.len(),
                        m == exprs_view(arguments@),
                        m.len() == arguments@.len(),
                        forall|q: int|
                            0 <= q < arguments@.len() ==> (#[trigger] arguments@[q])@ == m[q]
                                && expr_renderable(arguments@[q]@),
                        out@ == head + spec_args_prefix(m, j as int),
                    decreases arguments@.len() - j,
                {
                    if j > 0 {
                        out.push(0x2c);
                        out.push(0x20);
                    }
                    proof {
                        assert(self@ == FuncV::Call { name: name@, arguments: m });
                        lemma_evs_size_elem(m, j as int);
                        assert(arguments@[j as int]@ == m[j as int]);
                        assert(ev_size(arguments@[j as int]@) < fv_size(self@));
                    }
                    let t = arguments[j].sql_bytes();
                    crate::lexical::push_bytes(&mut out, t.as_slice());
                    proof {
                        if j > 0 {
                            assert(out@ =~= head + (spec_args_prefix(m, j as int)
                                + seq![0x2cu8, 0x20u8] + spec_expr_bytes(m[j as int])));
                        } else {
                            assert(spec_args_prefix(m, 0) =~= Seq::<u8>::empty());
                            assert(out@ =~= head + (spec_args_prefix(m, 0) + spec_expr_bytes(
                                m[0],
                            )));
                            assert(spec_args_prefix(m, 1) =~= spec_args_prefix(m, 0)
                                + spec_expr_bytes(m[0]));
                        }
                    }
                    j += 1;
                }
                out.push(0x29);
                proof {
                    lemma_args_prefix_full(m);
                    assert(out@ =~= vstd::utf8::encode_utf8(name@) + seq![0x28u8]
                        + spec_args_bytes(m) + seq![0x29u8]);
                }
            },
        }
        out
    }
}

proof fn lemma_exprs_renderable_index(v: Seq<Expression>, m: Seq<ExprV>)
    requires
        m == exprs_view(v),
        exprs_renderable(m),
    ensures
        m.len() == v.len(),
        forall|q: int| 0 <= q < v.len() ==> (#[trigger] v[q])@ == m[q] && expr_renderable(v[q]@),
    decreases v.len(),
{
    if v.len() > 0 {
        assert(m.len() == 1 + exprs_view(v.drop_first()).len());
        assert(m[0] == expr_view(v[0]));
        assert(m.drop_first() =~= exprs_view(v.drop_first()));
        lemma_exprs_renderable_index(v.drop_first(), m.drop_first());
        assert(forall|q: int| 1 <= q < v.len() ==> v.drop_first()[q - 1] == #[trigger] v[q]);
        assert(forall|q: int| 1 <= q < m.len() ==> m.drop_first()[q - 1] == #[trigger] m[q]);
    }
}

impl Expression {
    /// The rendered text of this expression, or nothing when an embedded
    /// name's bytes are not well-formed text.
    pub fn to_sql_text(&self) -> (r: Option<String>)
        requires
            self.renderable(),
        ensures
            match r {
                Some(s) => vstd::utf8::encode_utf8(s@) == spec_expr_bytes(self@),
                None => !vstd::utf8::valid_utf8(spec_expr_bytes(self@)),
            },
    {
        let b = self.sql_bytes();
        let r = crate::dialect::bytes_to_string(&b);
        proof {
            broadcast use vstd::utf8::decode_utf8_encode_utf8;

        }
        r
    }
}

} // verus!
