//! The table-constraint model and its canonical rendering: primary,
//! unique, fulltext and plain keys, foreign keys with referential actions,
//! and check constraints.

use vstd::prelude::*;
use crate::expr::{expr_renderable, spec_expr_bytes, ExprV, Expression};
use crate::lexical::{kw_bytes, push_bytes, push_str_bytes};
use crate::refs::{spec_quoted_name, spec_table_bytes, push_quoted_name, Column, ColumnV, Table, TableV};

verus! {

/// How an index is organized.
#[derive(Clone, Copy, Debug, PartialEq, Eq, Hash, Structural)]
pub enum IndexType {
    BTree,
    Hash,
}

/// The text of an index organization.
pub open spec fn spec_index_type_bytes(t: IndexType) -> Seq<u8> {
    match t {
        IndexType::BTree => kw_bytes("BTREE"@),
        IndexType::Hash => kw_bytes("HASH"@),
    }
}

impl IndexType {
    /// The canonical text of this index organization.
    pub fn sql_bytes(&self) -> (r: Vec<u8>)
        ensures
            r@ == spec_index_type_bytes(*self),
    {
        proof {
            reveal_strlit("BTREE");
            reveal_strlit("HASH");
        }
        let mut out: Vec<u8> = Vec::new();
        match self {
            IndexType::BTree => push_str_bytes(&mut out, "BTREE"),
            IndexType::Hash => push_str_bytes(&mut out, "HASH"),
        }
        out
    }
}

/// What a foreign key does on delete or update.
#[derive(Clone, Copy, Debug, PartialEq, Eq, Hash, Structural)]
pub enum ReferentialAction {
    Cascade,
    SetNull,
    Restrict,
    NoAction,
    SetDefault,
}

/// The text of a referential action.
pub open spec fn spec_action_bytes(a: ReferentialAction) -> Seq<u8> {
    match a {
        ReferentialAction::Cascade => kw_bytes("CASCADE"@),
        ReferentialAction::SetNull => kw_bytes("SET NULL"@),
        ReferentialAction::Restrict => kw_bytes("RESTRICT"@),
        ReferentialAction::NoAction => kw_bytes("NO ACTION"@),
        ReferentialAction::SetDefault => kw_bytes("SET DEFAULT"@),
    }
}

impl ReferentialAction {
    /// The canonical text of this action.
    pub fn sql_bytes(&self) -> (r: Vec<u8>)
        ensures
            r@ == spec_action_bytes(*self),
    {
        proof {
            reveal_strlit("CASCADE");
            reveal_strlit("SET NULL");
            reveal_strlit("RESTRICT");
            reveal_strlit("NO ACTION");
            reveal_strlit("SET DEFAULT");
        }
        let mut out: Vec<u8> = Vec::new();
        match self {
            ReferentialAction::Cascade => push_str_bytes(&mut out, "CASCADE"),
            ReferentialAction::SetNull => push_str_bytes(&mut out, "SET NULL"),
            ReferentialAction::Restrict => push_str_bytes(&mut out, "RESTRICT"),
            ReferentialAction::NoAction => push_str_bytes(&mut out, "NO ACTION"),
            ReferentialAction::SetDefault => push_str_bytes(&mut out, "SET DEFAULT"),
        }
        out
    }
}

/// A table-level key or constraint.
#[derive(Debug, PartialEq, Eq, Hash)]
pub enum TableKey {
    PrimaryKey { name: Option<String>, columns: Vec<Column> },
    UniqueKey { name: Option<String>, columns: Vec<Column>, index_type: Option<IndexType> },
    FulltextKey { name: Option<String>, columns: Vec<Column> },
    Key { name: String, columns: Vec<Column>, index_type: Option<IndexType> },
    ForeignKey {
        name: Option<String>,
        index_name: Option<String>,
        columns: Vec<Column>,
        target_table: Table,
        target_columns: Vec<Column>,
        on_delete: Option<ReferentialAction>,
        on_update: Option<ReferentialAction>,
    },
    CheckConstraint { name: Option<String>, expr: Expression, enforced: Option<bool> },
}

/// The mathematical shape of a table key.
pub enum TableKeyV {
    PrimaryKey { name: Option<Seq<char>>, columns: Seq<ColumnV> },
    UniqueKey { name: Option<Seq<char>>, columns: Seq<ColumnV>, index_type: Option<IndexType> },
    FulltextKey { name: Option<Seq<char>>, columns: Seq<ColumnV> },
    Key { name: Seq<char>, columns: Seq<ColumnV>, index_type: Option<IndexType> },
    ForeignKey {
        name: Option<Seq<char>>,
        index_name: Option<Seq<char>>,
        columns: Seq<ColumnV>,
        target_table: TableV,
        target_columns: Seq<ColumnV>,
        on_delete: Option<ReferentialAction>,
        on_update: Option<ReferentialAction>,
    },
    CheckConstraint { name: Option<Seq<char>>, expr: ExprV, enforced: Option<bool> },
}

/// The shapes of a column sequence.
pub open spec fn cols_view(s: Seq<Column>) -> Seq<ColumnV>
    decreases s,
{
    if s.len() == 0 {
        seq![]
    } else {
        seq![s[0]@] + cols_view(s.drop_first())
    }
}

pub open spec fn opt_name_view(n: &Option<String>) -> Option<Seq<char>> {
    match n {
        Some(s) => Some(s@),
        None => None,
    }
}

impl View for TableKey {
    type V = TableKeyV;

    open spec fn view(&self) -> TableKeyV {
        match self {
            TableKey::PrimaryKey { name, columns } => TableKeyV::PrimaryKey {
                name: opt_name_view(name),
                columns: cols_view(columns@),
            },
            TableKey::UniqueKey { name, columns, index_type } => TableKeyV::UniqueKey {
                name: opt_name_view(name),
                columns: cols_view(columns@),
                index_type: *index_type,
            },
            TableKey::FulltextKey { name, columns } => TableKeyV::FulltextKey {
                name: opt_name_view(name),
                columns: cols_view(columns@),
            },
            TableKey::Key { name, columns, index_type } => TableKeyV::Key {
                name: name@,
                columns: cols_view(columns@),
                index_type: *index_type,
            },
            TableKey::ForeignKey {
                name,
                index_name,
                columns,
                target_table,
                target_columns,
                on_delete,
                on_update,
            } => TableKeyV::ForeignKey {
                name: opt_name_view(name),
                index_name: opt_name_view(index_name),
                columns: cols_view(columns@),
                target_table: target_table@,
                target_columns: cols_view(target_columns@),
                on_delete: *on_delete,
                on_update: *on_update,
            },
            TableKey::CheckConstraint { name, expr, enforced } => TableKeyV::CheckConstraint {
                name: opt_name_view(name),
                expr: expr@,
                enforced: *enforced,
            },
        }
    }
}

/// Back-ticked column names joined by a comma and space, in parentheses.
pub open spec fn spec_col_list(s: Seq<ColumnV>) -> Seq<u8>
    decreases s,
{
    if s.len() == 0 {
        seq![]
    } else if s.len() == 1 {
        spec_quoted_name(s[0].name)
    } else {
        spec_quoted_name(s[0].name) + seq![0x2cu8, 0x20u8] + spec_col_list(s.drop_first())
    }
}

/// The column list over the first `k` names.
pub open spec fn spec_col_prefix(s: Seq<ColumnV>, k: int) -> Seq<u8>
    decreases k,
{
    if k <= 0 {
        seq![]
    } else if k == 1 {
        spec_quoted_name(s[0].name)
    } else {
        spec_col_prefix(s, k - 1) + seq![0x2cu8, 0x20u8] + spec_quoted_name(s[k - 1].name)
    }
}

proof fn lemma_col_prefix_full(s: Seq<ColumnV>)
    ensures
        spec_col_prefix(s, s.len() as int) == spec_col_list(s),
    decreases s.len(),
{
    if s.len() <= 1 {
    } else {
        lemma_col_prefix_full(s.drop_first());
        lemma_col_prefix_shift(s, s.len() as int);
    }
}

proof fn lemma_col_prefix_shift(s: Seq<ColumnV>, k: int)
    requires
        2 <= k <= s.len(),
    ensures
        spec_col_prefix(s, k) == spec_quoted_name(s[0].name) + seq![0x2cu8, 0x20u8]
            + spec_col_prefix(s.drop_first(), k - 1),
    decreases k,
{
    if k == 2 {
        assert(s.drop_first()[0] == s[1]);
        assert(spec_col_prefix(s.drop_first(), 1) == spec_quoted_name(s[1].name));
        assert(spec_col_prefix(s, 1) == spec_quoted_name(s[0].name));
        assert(spec_col_prefix(s, 2) == spec_col_prefix(s, 1) + seq![0x2cu8, 0x20u8]
            + spec_quoted_name(s[1].name));
        assert(spec_col_prefix(s, 2) =~= spec_quoted_name(s[0].name) + seq![0x2cu8, 0x20u8]
            + spec_col_prefix(s.drop_first(), 1));
    } else {
        lemma_col_prefix_shift(s, k - 1);
        assert(s.drop_first()[k - 2] == s[k - 1]);
        assert((spec_quoted_name(s[0].name) + seq![0x2cu8, 0x20u8] + spec_col_prefix(
            s.drop_first(),
            k - 2,
        )) + seq![0x2cu8, 0x20u8] + spec_quoted_name(s[k - 1].name) =~= spec_quoted_name(
            s[0].name,
        ) + seq![0x2cu8, 0x20u8] + (spec_col_prefix(s.drop_first(), k - 2)
            + seq![0x2cu8, 0x20u8] + spec_quoted_name(s[k - 1].name)));
    }
}

proof fn lemma_cols_view_index(s: Seq<Column>)
    ensures
        cols_view(s).len() == s.len(),
        forall|j: int| 0 <= j < s.len() ==> cols_view(s)[j] == (#[trigger] s[j])@,
    decreases s.len(),
{
    if s.len() > 0 {
        lemma_cols_view_index(s.drop_first());
        assert(forall|j: int| 1 <= j < s.len() ==> s.drop_first()[j - 1] == #[trigger] s[j]);
        assert(forall|j: int|
            1 <= j < s.len() ==> cols_view(s)[j] == cols_view(s.drop_first())[j - 1]);
    }
}

/// Appends `(` col, col `)` for a column list.
fn push_col_list(out: &mut Vec<u8>, cols: &Vec<Column>)
    ensures
        final(out)@ == old(out)@ + seq![0x28u8] + spec_col_list(cols_view(cols@)) + seq![0x29u8],
{
    let ghost m = cols_view(cols@);
    proof {
        lemma_cols_view_index(cols@);
    }
    out.push(0x28);
    let ghost head = out@;
    let mut j: usize = 0;
    while j < cols.len()
        invariant
            j <= cols@.len(),
            m == cols_view(cols@),
            m.len() == cols@.len(),
            forall|q: int| 0 <= q < cols@.len() ==> m[q] == (#[trigger] cols@[q])@,
            out@ == head + spec_col_prefix(m, j as int),
        decreases cols@.len() - j,
    {
        if j > 0 {
            out.push(0x2c);
            out.push(0x20);
        }
        push_quoted_name(out, &cols[j].name);
        proof {
            if j > 0 {
                assert(out@ =~= head + (spec_col_prefix(m, j as int) + seq![0x2cu8, 0x20u8]
                    + spec_quoted_name(m[j as int].name)));
            } else {
                assert(spec_col_prefix(m, 0) =~= Seq::<u8>::empty());
                assert(out@ =~= head + (spec_col_prefix(m, 0) + spec_quoted_name(m[0].name)));
                assert(spec_col_prefix(m, 1) =~= spec_col_prefix(m, 0) + spec_quoted_name(
                    m[0].name,
                ));
            }
        }
        j += 1;
    }
    out.push(0x29);
    proof {
        lemma_col_prefix_full(m);
        assert(final(out)@ =~= old(out)@ + seq![0x28u8] + spec_col_list(m) + seq![0x29u8]);
    }
}

/// An optional back-ticked name followed by one space.
pub open spec fn spec_opt_name(n: Option<Seq<char>>) -> Seq<u8> {
    match n {
        Some(t) => spec_quoted_name(t) + seq![0x20u8],
        None => seq![],
    }
}

/// ` USING <index type>` when present.
pub open spec fn spec_opt_using(t: Option<IndexType>) -> Seq<u8> {
    match t {
        Some(ix) => kw_bytes(" USING "@) + spec_index_type_bytes(ix),
        None => seq![],
    }
}

/// Whether the key's text can be produced: only a check constraint over an
/// unrenderable expression is refused.
pub open spec fn spec_key_renderable(k: TableKeyV) -> bool {
    match k {
        TableKeyV::CheckConstraint { expr, .. } => expr_renderable(expr),
        _ => true,
    }
}

/// The canonical SQL text of a table key.
pub open spec fn spec_table_key_bytes(k: TableKeyV) -> Seq<u8> {
    match k {
        TableKeyV::PrimaryKey { name, columns } => kw_bytes("PRIMARY KEY "@) + spec_opt_name(name)
            + seq![0x28u8] + spec_col_list(columns) + seq![0x29u8],
        TableKeyV::UniqueKey { name, columns, index_type } => kw_bytes("UNIQUE KEY "@)
            + spec_opt_name(name) + seq![0x28u8] + spec_col_list(columns) + seq![0x29u8]
            + spec_opt_using(index_type),
        TableKeyV::FulltextKey { name, columns } => kw_bytes("FULLTEXT KEY "@) + spec_opt_name(
            name,
        ) + seq![0x28u8] + spec_col_list(columns) + seq![0x29u8],
        TableKeyV::Key { name, columns, index_type } => kw_bytes("KEY "@) + spec_quoted_name(name)
            + seq![0x20u8] + seq![0x28u8] + spec_col_list(columns) + seq![0x29u8]
            + spec_opt_using(index_type),
        TableKeyV::ForeignKey {
            name,
            index_name,
            columns,
            target_table,
            target_columns,
            on_delete,
            on_update,
        } => kw_bytes("CONSTRAINT "@) + spec_quoted_name(
            match name {
                Some(t) => t,
                None => Seq::<char>::empty(),
            },
        ) + kw_bytes(" FOREIGN KEY "@) + (match index_name {
            Some(t) => vstd::utf8::encode_utf8(t),
            None => seq![],
        }) + seq![0x28u8] + spec_col_list(columns) + seq![0x29u8] + kw_bytes(" REFERENCES "@)
            + spec_table_bytes(target_table) + seq![0x20u8, 0x28u8] + spec_col_list(
            target_columns,
        ) + seq![0x29u8] + (match on_delete {
            Some(a) => kw_bytes(" ON DELETE "@) + spec_action_bytes(a),
            None => seq![],
        }) + (match on_update {
            Some(a) => kw_bytes(" ON UPDATE "@) + spec_action_bytes(a),
            None => seq![],
        }),
        TableKeyV::CheckConstraint { name, expr, enforced } => kw_bytes("CONSTRAINT"@) + (
        match name {
            Some(t) => seq![0x20u8] + spec_quoted_name(t),
            None => seq![],
        }) + kw_bytes(" CHECK "@) + spec_expr_bytes(expr) + (match enforced {
            Some(true) => kw_bytes(" ENFORCED"@),
            Some(false) => kw_bytes(" NOT ENFORCED"@),
            None => seq![],
        }),
    }
}

impl TableKey {
    /// Whether `sql_bytes` accepts this key.
    pub open spec fn renderable(&self) -> bool {
        spec_key_renderable(self@)
    }

    /// The canonical SQL text of this key, as bytes.
    #[verifier::rlimit(100)]
    pub fn sql_bytes(&self) -> (r: Vec<u8>)
        requires
            self.renderable(),
        ensures
            r@ == spec_table_key_bytes(self@),
    {
        proof {
            reveal_strlit("PRIMARY KEY ");
            reveal_strlit("UNIQUE KEY ");
            reveal_strlit("FULLTEXT KEY ");
            reveal_strlit("KEY ");
            reveal_strlit("CONSTRAINT ");
            reveal_strlit("CONSTRAINT");
            reveal_strlit(" FOREIGN KEY ");
            reveal_strlit(" REFERENCES ");
            reveal_strlit(" ON DELETE ");
            reveal_strlit(" ON UPDATE ");
            reveal_strlit(" CHECK ");
            reveal_strlit(" ENFORCED");
            reveal_strlit(" NOT ENFORCED");
            reveal_strlit(" USING ");
        }
        let mut out: Vec<u8> = Vec::new();
        match self {
            TableKey::PrimaryKey { name, columns } => {
                push_str_bytes(&mut out, "PRIMARY KEY ");
                push_opt_name(&mut out, name);
                push_col_list(&mut out, columns);
                proof {
                    assert(out@ =~= spec_table_key_bytes(self@));
                }
            },
            TableKey::UniqueKey { name, columns, index_type } => {
                push_str_bytes(&mut out, "UNIQUE KEY ");
                push_opt_name(&mut out, name);
                push_col_list(&mut out, columns);
                push_opt_using(&mut out, index_type);
                proof {
                    assert(out@ =~= spec_table_key_bytes(self@));
                }
            },
            TableKey::FulltextKey { name, columns } => {
                push_str_bytes(&mut out, "FULLTEXT KEY ");
                push_opt_name(&mut out, name);
                push_col_list(&mut out, columns);
                proof {
                    assert(out@ =~= spec_table_key_bytes(self@));
                }
            },
            TableKey::Key { name, columns, index_type } => {
                push_str_bytes(&mut out, "KEY ");
                push_quoted_name(&mut out, name);
                out.push(0x20);
                push_col_list(&mut out, columns);
                push_opt_using(&mut out, index_type);
                proof {
                    assert(out@ =~= spec_table_key_bytes(self@));
                }
            },
            TableKey::ForeignKey {
                name,
                index_name,
                columns,
                target_table,
                target_columns,
                on_delete,
                on_update,
            } => {
                broadcast use vstd::string::is_ascii_spec_bytes;

                push_str_bytes(&mut out, "CONSTRAINT ");
                match name {
                    Some(t) => push_quoted_name(&mut out, t),
                    None => {
                        out.push(0x60);
                        out.push(0x60);
                        proof {
                            assert(vstd::utf8::encode_utf8(Seq::<char>::empty())
                                =~= Seq::<u8>::empty());
                            assert(out@ =~= kw_bytes("CONSTRAINT "@) + spec_quoted_name(
                                Seq::<char>::empty(),
                            ));
                        }
                    },
                }
                push_str_bytes(&mut out, " FOREIGN KEY ");
                match index_name {
                    Some(t) => {
                        push_bytes(&mut out, t.as_str().as_bytes());
                    },
                    None => {},
                }
                push_col_list(&mut out, columns);
                push_str_bytes(&mut out, " REFERENCES ");
                let tb = target_table.sql_bytes();
                push_bytes(&mut out, tb.as_slice());
                out.push(0x20);
                push_col_list(&mut out, target_columns);
                match on_delete {
                    Some(a) => {
                        push_str_bytes(&mut out, " ON DELETE ");
                        let ab = a.sql_bytes();
                        push_bytes(&mut out, ab.as_slice());
                    },
                    None => {},
                }
                match on_update {
                    Some(a) => {
                        push_str_bytes(&mut out, " ON UPDATE ");
                        let ab = a.sql_bytes();
                        push_bytes(&mut out, ab.as_slice());
                    },
                    None => {},
                }
                proof {
                    assert(out@ =~= spec_table_key_bytes(self@));
                }
            },
            TableKey::CheckConstraint { name, expr, enforced } => {
                push_str_bytes(&mut out, "CONSTRAINT");
                match name {
                    Some(t) => {
                        out.push(0x20);
                        push_quoted_name(&mut out, t);
                    },
                    None => {},
                }
                push_str_bytes(&mut out, " CHECK ");
                let eb = expr.sql_bytes();
                push_bytes(&mut out, eb.as_slice());
                match enforced {
                    Some(true) => push_str_bytes(&mut out, " ENFORCED"),
                    Some(false) => push_str_bytes(&mut out, " NOT ENFORCED"),
                    None => {},
                }
                proof {
                    assert(out@ =~= spec_table_key_bytes(self@));
                }
            },
        }
        out
    }
}

/// Appends a back-ticked optional name and a space.
fn push_opt_name(out: &mut Vec<u8>, n: &Option<String>)
    ensures
        final(out)@ == old(out)@ + spec_opt_name(opt_name_view(n)),
{
    match n {
        Some(t) => {
            push_quoted_name(out, t);
            out.push(0x20);
            proof {
                assert(final(out)@ =~= old(out)@ + spec_opt_name(opt_name_view(n)));
            }
        },
        None => {
            proof {
                assert(final(out)@ =~= old(out)@ + spec_opt_name(opt_name_view(n)));
            }
        },
    }
}

/// Appends ` USING <index type>` when present.
fn push_opt_using(out: &mut Vec<u8>, t: &Option<IndexType>)
    ensures
        final(out)@ == old(out)@ + spec_opt_using(*t),
{
    proof {
        reveal_strlit(" USING ");
    }
    match t {
        Some(ix) => {
            push_str_bytes(out, " USING ");
            let b = ix.sql_bytes();
            push_bytes(out, b.as_slice());
            proof {
                assert(final(out)@ =~= old(out)@ + spec_opt_using(*t));
            }
        },
        None => {
            proof {
                assert(final(out)@ =~= old(out)@ + spec_opt_using(*t));
            }
        },
    }
}

impl TableKey {
    /// The canonical SQL text of this key, or nothing when an embedded
    /// name's bytes are not well-formed text.
    pub fn to_sql_text(&self) -> (r: Option<String>)
        requires
            self.renderable(),
        ensures
            match r {
                Some(s) => vstd::utf8::encode_utf8(s@) == spec_table_key_bytes(self@),
                None => !vstd::utf8::valid_utf8(spec_table_key_bytes(self@)),
            },
    {
        let b = self.sql_bytes();
        let r = crate::dialect::bytes_to_string(&b);
        proof {
            broadcast use vstd::utf8::decode_utf8_encode_utf8;

        }
        r
    }
}

} // verus!
