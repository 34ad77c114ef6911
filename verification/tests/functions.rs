use sql_grammar::dialect::Dialect;
use sql_grammar::expr::{column_function, expression, Expression, FunctionExpression};
use sql_grammar::literal::Literal;
use sql_grammar::refs::Column;
use sql_grammar::sqltype::SqlType;

fn col(name: &str) -> Column {
    Column { name: name.to_owned(), table: None }
}

#[test]
fn group_concat() {
    let qs = b"group_concat(x separator ', ')";
    let expected = FunctionExpression::GroupConcat {
        expr: Box::new(Expression::Column(col("x"))),
        separator: ", ".to_owned(),
    };
    let res = column_function(Dialect::MySQL, qs, 0);
    assert_eq!(res.unwrap().1, expected);
}

#[test]
fn simple_generic_function() {
    let qlist = [
        "coalesce(a,b,c)".as_bytes(),
        "coalesce (a,b,c)".as_bytes(),
        "coalesce(a ,b,c)".as_bytes(),
        "coalesce(a, b,c)".as_bytes(),
    ];
    for q in qlist.iter() {
        let res = column_function(Dialect::MySQL, q, 0);
        let expected = FunctionExpression::Call {
            name: "coalesce".to_owned(),
            arguments: vec![
                Expression::Column(col("a")),
                Expression::Column(col("b")),
                Expression::Column(col("c")),
            ],
        };
        assert_eq!(res, Some((q.len(), expected)));
    }
}

#[test]
fn nested_function_call() {
    let res = column_function(Dialect::MySQL, b"max(min(foo))", 0).unwrap().1;
    assert_eq!(
        res,
        FunctionExpression::Max(Box::new(Expression::Call(FunctionExpression::Min(
            Box::new(Expression::Column(col("foo")))
        ))))
    )
}

#[test]
fn nested_cast() {
    let res = column_function(Dialect::MySQL, b"max(cast(foo as int))", 0).unwrap().1;
    assert_eq!(
        res,
        FunctionExpression::Max(Box::new(Expression::Cast {
            expr: Box::new(Expression::Column(col("foo"))),
            ty: SqlType::Int(None),
            postgres_style: false,
        }))
    )
}

#[test]
fn generic_function_with_int_literal() {
    let (_, res) = column_function(Dialect::MySQL, b"ifnull(x, 0)", 0).unwrap();
    assert_eq!(
        res,
        FunctionExpression::Call {
            name: "ifnull".to_owned(),
            arguments: vec![
                Expression::Column(col("x")),
                Expression::Literal(Literal::Integer(0))
            ]
        }
    );
}

#[test]
fn common_cast() {
    let mysql = expression(Dialect::MySQL, b"cast(`lp`.`start_ddtm` as date)", 0);
    let expected = Expression::Cast {
        expr: Box::new(Expression::Column(Column {
            table: Some("lp".to_owned()),
            name: "start_ddtm".to_owned(),
        })),
        ty: SqlType::Date,
        postgres_style: false,
    };
    assert_eq!(mysql.unwrap().1, expected);
    let pg = expression(Dialect::PostgreSQL, b"cast(\"lp\".\"start_ddtm\" as date)", 0);
    let expected_pg = Expression::Cast {
        expr: Box::new(Expression::Column(Column {
            table: Some("lp".to_owned()),
            name: "start_ddtm".to_owned(),
        })),
        ty: SqlType::Date,
        postgres_style: false,
    };
    assert_eq!(pg.unwrap().1, expected_pg);
}

#[test]
fn common_simple_generic_function_with_literal() {
    let mysql_list = [
        "coalesce(\"a\",b,c)".as_bytes(),
        "coalesce (\"a\",b,c)".as_bytes(),
        "coalesce(\"a\" ,b,c)".as_bytes(),
        "coalesce(\"a\", b,c)".as_bytes(),
    ];
    for q in mysql_list.iter() {
        let res = column_function(Dialect::MySQL, q, 0);
        let expected = FunctionExpression::Call {
            name: "coalesce".to_owned(),
            arguments: vec![
                Expression::Literal(Literal::String("a".to_owned())),
                Expression::Column(col("b")),
                Expression::Column(col("c")),
            ],
        };
        assert_eq!(res, Some((q.len(), expected)));
    }
    let pg_list = [
        "coalesce('a',b,c)".as_bytes(),
        "coalesce ('a',b,c)".as_bytes(),
        "coalesce('a' ,b,c)".as_bytes(),
        "coalesce('a', b,c)".as_bytes(),
    ];
    for q in pg_list.iter() {
        let res = column_function(Dialect::PostgreSQL, q, 0);
        let expected = FunctionExpression::Call {
            name: "coalesce".to_owned(),
            arguments: vec![
                Expression::Literal(Literal::String("a".to_owned())),
                Expression::Column(col("b")),
                Expression::Column(col("c")),
            ],
        };
        assert_eq!(res, Some((q.len(), expected)));
    }
}

#[test]
fn count_star_and_distinct() {
    assert_eq!(
        column_function(Dialect::MySQL, b"count(*)", 0),
        Some((8, FunctionExpression::CountStar))
    );
    assert_eq!(
        column_function(Dialect::MySQL, b"count(distinct x)", 0),
        Some((
            17,
            FunctionExpression::Count {
                expr: Box::new(Expression::Column(col("x"))),
                distinct: true,
                count_nulls: false,
            }
        ))
    );
    assert_eq!(
        column_function(Dialect::MySQL, b"sum(x)", 0),
        Some((
            6,
            FunctionExpression::Sum {
                expr: Box::new(Expression::Column(col("x"))),
                distinct: false,
            }
        ))
    );
}

#[test]
fn group_concat_default_separator_is_comma() {
    let res = column_function(Dialect::MySQL, b"group_concat(x)", 0).unwrap().1;
    assert_eq!(
        res,
        FunctionExpression::GroupConcat {
            expr: Box::new(Expression::Column(col("x"))),
            separator: ",".to_owned(),
        }
    );
}

#[test]
fn function_rendering() {
    let f = FunctionExpression::Count {
        expr: Box::new(Expression::Column(col("x"))),
        distinct: true,
        count_nulls: false,
    };
    assert_eq!(f.sql_bytes(), b"count(distinct `x`)".to_vec());
    assert_eq!(FunctionExpression::CountStar.sql_bytes(), b"count(*)".to_vec());
}
