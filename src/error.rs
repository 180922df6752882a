use vstd::prelude::*;

use crate::types::names_view;

verus! {

/// Why a compilation failed.
#[derive(Debug, Clone, PartialEq, Eq)]
pub enum TsqlError {
    /// The table declaration starting at this position does not match the grammar.
    LexError(usize),
    /// The table declaration starting at this position has a field whose type
    /// keyword takes other arguments, or whose argument is out of range.
    DataTypeDecodeError(usize),
    /// A field of the table (first) refers to a table (second) that is not declared.
    UnresolvedForeignKey(String, String),
    /// Tables that refer to one another in a cycle.
    ForeignKeyCycle(Vec<String>),
    /// A field of the table (first) whose type is no concrete type (second: the field).
    UnknownTypeInResolved(String, String),
    /// A primary-key name (second) that names no field of the table (first).
    MissingPrimaryKeyField(String, String),
    /// A field name (second) that occurs twice in the resolved table (first).
    DuplicateField(String, String),
    /// A table name that is declared twice.
    DuplicateTable(String),
}

pub enum ErrorModel {
    Lex(int),
    Decode(int),
    Unresolved(Seq<char>, Seq<char>),
    Cycle(Seq<Seq<char>>),
    UnknownType(Seq<char>, Seq<char>),
    MissingPk(Seq<char>, Seq<char>),
    Duplicate(Seq<char>, Seq<char>),
    DuplicateTable(Seq<char>),
}

impl View for TsqlError {
    type V = ErrorModel;

    open spec fn view(&self) -> ErrorModel {
        match self {
            TsqlError::LexError(p) => ErrorModel::Lex(*p as int),
            TsqlError::DataTypeDecodeError(p) => ErrorModel::Decode(*p as int),
            TsqlError::UnresolvedForeignKey(t, r) => ErrorModel::Unresolved(t@, r@),
            TsqlError::ForeignKeyCycle(ts) => ErrorModel::Cycle(names_view(ts@)),
            TsqlError::UnknownTypeInResolved(t, f) => ErrorModel::UnknownType(t@, f@),
            TsqlError::MissingPrimaryKeyField(t, f) => ErrorModel::MissingPk(t@, f@),
            TsqlError::DuplicateField(t, f) => ErrorModel::Duplicate(t@, f@),
            TsqlError::DuplicateTable(t) => ErrorModel::DuplicateTable(t@),
        }
    }
}

} // verus!
