//! A compiler from TSQL, a small language that declares tables, to SQL
//! `CREATE TABLE` statements.
use vstd::prelude::*;

pub mod emit;
pub mod error;
pub mod generate;
pub mod helper;
pub mod laws;
pub mod parser;
pub mod resolve;
pub mod roundtrip;
pub mod text;
pub mod types;

use crate::emit::{collection_sql, sql_collection};
use crate::error::{ErrorModel, TsqlError};
use crate::parser::stream::{parse_raw_tables, raw_tables_spec};
use crate::resolve::resolve_spec;
use crate::text::chars_of;
use crate::types::{Table, TableCollection, TableModel};

verus! {

/// What a TSQL text compiles to: its resolved tables ordered by name, or the
/// first error.
pub open spec fn compile_spec(text: Seq<char>) -> Result<Seq<TableModel>, ErrorModel> {
    match raw_tables_spec(text) {
        Err(e) => Err(e),
        Ok(raw) => resolve_spec(raw),
    }
}

/// Parses a TSQL text and resolves its tables.
pub fn parse_str(content: &str) -> (r: Result<TableCollection, TsqlError>)
    ensures
        r matches Ok(c) ==> compile_spec(content@) == Ok::<Seq<TableModel>, ErrorModel>(c@),
        r matches Err(e) ==> compile_spec(content@) == Err::<Seq<TableModel>, ErrorModel>(e@),
{
    let chars = chars_of(content);
    match parse_raw_tables(&chars) {
        Err(e) => Err(e),
        Ok(raw) => Table::parse_raw_tables(raw),
    }
}

/// Compiles a TSQL text to the SQL of its tables, in order of name.
pub fn compile(content: &str) -> (r: Result<String, TsqlError>)
    ensures
        r matches Ok(s) ==> (compile_spec(content@) matches Ok(c) && s@ == sql_collection(c)),
        r matches Err(e) ==> compile_spec(content@) == Err::<Seq<TableModel>, ErrorModel>(e@),
{
    match parse_str(content) {
        Ok(c) => Ok(collection_sql(&c)),
        Err(e) => Err(e),
    }
}

} // verus!
