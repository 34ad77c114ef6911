use sql_grammar::dialect::Dialect;
use sql_grammar::expr::Expression;
use sql_grammar::fields::{
    field_definition_expr, field_reference, FieldDefinitionExpression, FieldReference,
};
use sql_grammar::keys::{IndexType, ReferentialAction, TableKey};
use sql_grammar::refs::{
    column_identifier_no_alias, field_list, parse_comment, schema_table_reference,
    statement_terminator, table_list, table_reference, Column, Table,
};

fn col(name: &str) -> Column {
    Column { name: name.to_owned(), table: None }
}

#[test]
fn qualified_column_with_spaces() {
    let res = column_identifier_no_alias(Dialect::MySQL, b"foo . bar", 0);
    assert_eq!(
        res,
        Some((
            9,
            Column { table: Some("foo".to_owned()), name: "bar".to_owned() }
        ))
    );
}

#[test]
fn comment_data() {
    let res = parse_comment(b" COMMENT 'test'", 0);
    assert_eq!(res.unwrap().1, "test");
}

#[test]
fn terminated_by_semicolon() {
    let res = statement_terminator(b"   ;  ", 0);
    assert_eq!(res, Some(6));
}

#[test]
fn table_references_take_aliases() {
    assert_eq!(
        table_reference(Dialect::MySQL, b"t AS x", 0),
        Some((
            6,
            Table { name: "t".to_owned(), alias: Some("x".to_owned()), schema: None }
        ))
    );
    assert_eq!(
        schema_table_reference(Dialect::PostgreSQL, b"s.t", 0),
        Some((
            3,
            Table { name: "t".to_owned(), alias: None, schema: Some("s".to_owned()) }
        ))
    );
}

#[test]
fn lists_of_fields_and_tables() {
    let (p, cols) = field_list(Dialect::MySQL, b"a, b ,c", 0);
    assert_eq!(p, 7);
    assert_eq!(cols, vec![col("a"), col("b"), col("c")]);
    let res = table_list(Dialect::MySQL, b"t1, t2", 0).unwrap();
    assert_eq!(res.0, 6);
    assert_eq!(res.1.len(), 2);
    assert_eq!(res.1[0].name, "t1");
    assert_eq!(res.1[1].name, "t2");
}

#[test]
fn select_list_entries() {
    let (p, items) = field_definition_expr(Dialect::MySQL, b"*, t.*, x", 0);
    assert_eq!(p, 9);
    assert_eq!(items.len(), 3);
    assert_eq!(items[0], FieldDefinitionExpression::All);
    assert_eq!(items[1], FieldDefinitionExpression::AllInTable("t".to_owned()));
    assert_eq!(
        items[2],
        FieldDefinitionExpression::Expression { expr: Expression::Column(col("x")), alias: None }
    );
    // A trailing comma is tolerated.
    let (p2, items2) = field_definition_expr(Dialect::MySQL, b"a, b, ", 0);
    assert_eq!(p2, 6);
    assert_eq!(items2.len(), 2);
}

#[test]
fn field_references_differ_by_dialect() {
    assert_eq!(
        field_reference(Dialect::MySQL, b"3", 0),
        Some((1, FieldReference::Numeric(3)))
    );
    assert_eq!(
        field_reference(Dialect::PostgreSQL, b"3", 0),
        Some((
            1,
            FieldReference::Expression(Expression::Literal(
                sql_grammar::literal::Literal::Integer(3)
            ))
        ))
    );
}

#[test]
fn table_key_rendering() {
    let pk = TableKey::PrimaryKey { name: None, columns: vec![col("id"), col("k")] };
    assert_eq!(pk.sql_bytes(), b"PRIMARY KEY (`id`, `k`)".to_vec());
    let uk = TableKey::UniqueKey {
        name: Some("u".to_owned()),
        columns: vec![col("a")],
        index_type: Some(IndexType::BTree),
    };
    assert_eq!(uk.sql_bytes(), b"UNIQUE KEY `u` (`a`) USING BTREE".to_vec());
    let fk = TableKey::ForeignKey {
        name: Some("fk".to_owned()),
        index_name: None,
        columns: vec![col("a")],
        target_table: Table { name: "t".to_owned(), alias: None, schema: None },
        target_columns: vec![col("b")],
        on_delete: Some(ReferentialAction::Cascade),
        on_update: None,
    };
    assert_eq!(
        fk.sql_bytes(),
        b"CONSTRAINT `fk` FOREIGN KEY (`a`) REFERENCES `t` (`b`) ON DELETE CASCADE".to_vec()
    );
}

#[test]
fn check_constraint_rendering() {
    let ck = TableKey::CheckConstraint {
        name: Some("c".to_owned()),
        expr: Expression::Column(col("ok")),
        enforced: Some(false),
    };
    assert_eq!(ck.sql_bytes(), b"CONSTRAINT `c` CHECK `ok` NOT ENFORCED".to_vec());
}
