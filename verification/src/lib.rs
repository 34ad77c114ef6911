//! A verified SQL grammar core: the scalar type model, the literal value
//! model with its rendering, and the lexical and reference grammars that
//! statement parsers are built from, for both the MySQL and the PostgreSQL
//! dialect.

pub mod dialect;
pub mod digitvec;
pub mod expr;
pub mod fields;
pub mod ieee;
pub mod keys;
pub mod laws;
pub mod lexical;
pub mod literal;
pub mod refs;
pub mod sqltype;
