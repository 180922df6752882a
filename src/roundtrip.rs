//! The TSQL text that the library writes, read back by its parser.
use vstd::prelude::*;

use crate::emit::{join, tsql_collection, tsql_column, tsql_columns, tsql_primary_key, tsql_table};
use crate::parser::grammar::{
    close_brace, field_list, field_syntax, field_tail, table_extra_syntax, table_syntax,
    FieldSyntax, TableSyntax,
};
use crate::types::find_table;
use crate::parser::lexer::{
    blank_end, digit_end, is_blank, is_digit, item_end, list_tail, lit_at, sep_end,
    tuple_list, word_end,
};
use crate::compile_spec;
use crate::laws::{
    distinct_names, lemma_compiled_names_distinct, lemma_compiled_tables_ordered, ordered_by_name,
};
use crate::parser::stream::{
    declares, decode_field, decode_fields, decode_table, raw_tables_spec, tables_from,
    upsert_field,
};
use crate::resolve::{
    add_columns, expand_keys, first_unresolved, insert_table, missing_pk, new_columns,
    order_tables, raw_names, resolve_fields, resolve_in_order, resolve_table, sort_raw,
};
use crate::parser::types::{
    all_digits, decode_spec, digit_value, digits_value, fk_target, fk_targets, num_arg,
    RawFieldModel, RawTableModel, RawTypeModel,
};
use crate::text::is_word_char;
use crate::types::{
    decimal_digits, digit_char, find_field, format_spec, DataType, FieldModel, TableModel,
};

verus! {

/// One or more identifier characters.
pub open spec fn identifier(w: Seq<char>) -> bool {
    w.len() > 0 && forall|k: int| 0 <= k < w.len() ==> is_word_char(#[trigger] w[k])
}

/// `text` stands in `s` at position `i`.
pub open spec fn at(s: Seq<char>, i: int, text: Seq<char>) -> bool {
    0 <= i && i + text.len() <= s.len() && s.subrange(i, i + text.len()) == text
}

proof fn lemma_at_index(s: Seq<char>, i: int, text: Seq<char>, k: int)
    requires
        at(s, i, text),
        0 <= k < text.len(),
    ensures
        s[i + k] == text[k],
{
    assert(s.subrange(i, i + text.len())[k] == s[i + k]);
}

proof fn lemma_at_split(s: Seq<char>, i: int, a: Seq<char>, b: Seq<char>)
    requires
        at(s, i, a + b),
    ensures
        at(s, i, a),
        at(s, i + a.len(), b),
{
    assert(s.subrange(i, i + a.len()) =~= (a + b).subrange(0, a.len() as int));
    assert((a + b).subrange(0, a.len() as int) =~= a);
    assert(s.subrange(i + a.len(), i + a.len() + b.len()) =~= (a + b).subrange(
        a.len() as int,
        (a + b).len() as int,
    ));
    assert((a + b).subrange(a.len() as int, (a + b).len() as int) =~= b);
}

proof fn lemma_at_join(s: Seq<char>, i: int, a: Seq<char>, b: Seq<char>)
    requires
        at(s, i, a),
        at(s, i + a.len(), b),
    ensures
        at(s, i, a + b),
{
    assert forall|k: int| 0 <= k < (a + b).len() implies s.subrange(i, i + (a + b).len())[k] == (a
        + b)[k] by {
        if k < a.len() {
            lemma_at_index(s, i, a, k);
        } else {
            lemma_at_index(s, i + a.len(), b, k - a.len());
        }
    }
    assert(s.subrange(i, i + (a + b).len()) =~= a + b);
}

/// What an identifier character is not.
proof fn lemma_word_char_facts(c: char)
    requires
        is_word_char(c),
    ensures
        !is_blank(c),
        !is_digit(c),
        c != ',' && c != '(' && c != ')' && c != '{' && c != '}' && c != ';' && c != '@',
{
}

proof fn lemma_word_end_at(s: Seq<char>, i: int, w: Seq<char>)
    requires
        at(s, i, w),
        forall|k: int| 0 <= k < w.len() ==> is_word_char(#[trigger] w[k]),
        i + w.len() == s.len() || !is_word_char(s[i + w.len()]),
    ensures
        word_end(s, i) == i + w.len(),
    decreases w.len(),
{
    if w.len() > 0 {
        lemma_at_index(s, i, w, 0);
        assert(seq![w[0]] + w.drop_first() =~= w);
        lemma_at_split(s, i, seq![w[0]], w.drop_first());
        lemma_word_end_at(s, i + 1, w.drop_first());
    }
}

proof fn lemma_blank_end_at(s: Seq<char>, i: int, w: Seq<char>)
    requires
        at(s, i, w),
        forall|k: int| 0 <= k < w.len() ==> is_blank(#[trigger] w[k]),
        i + w.len() == s.len() || !is_blank(s[i + w.len()]),
    ensures
        blank_end(s, i) == i + w.len(),
    decreases w.len(),
{
    if w.len() > 0 {
        lemma_at_index(s, i, w, 0);
        assert(seq![w[0]] + w.drop_first() =~= w);
        lemma_at_split(s, i, seq![w[0]], w.drop_first());
        lemma_blank_end_at(s, i + 1, w.drop_first());
    }
}

proof fn lemma_digit_end_at(s: Seq<char>, i: int, w: Seq<char>)
    requires
        at(s, i, w),
        forall|k: int| 0 <= k < w.len() ==> is_digit(#[trigger] w[k]),
        i + w.len() == s.len() || !is_digit(s[i + w.len()]),
    ensures
        digit_end(s, i) == i + w.len(),
    decreases w.len(),
{
    if w.len() > 0 {
        lemma_at_index(s, i, w, 0);
        assert(seq![w[0]] + w.drop_first() =~= w);
        lemma_at_split(s, i, seq![w[0]], w.drop_first());
        lemma_digit_end_at(s, i + 1, w.drop_first());
    }
}

/// The decimal digits of a number are digits, and denote it.
proof fn lemma_decimal_digits(n: nat)
    ensures
        decimal_digits(n).len() > 0,
        all_digits(decimal_digits(n)),
        forall|k: int| 0 <= k < decimal_digits(n).len() ==> is_digit(#[trigger] decimal_digits(n)[k]),
        digits_value(decimal_digits(n)) == n,
    decreases n,
{
    let d = (n % 10) as nat;
    assert(digit_value(digit_char(d)) == d);
    if n >= 10 {
        lemma_decimal_digits(n / 10);
        let prev = decimal_digits(n / 10);
        let ds = prev.push(digit_char(d));
        assert(ds.drop_last() =~= prev);
        assert(ds.last() == digit_char(d));
        assert(n == (n / 10) * 10 + n % 10) by (nonlinear_arith);
        assert forall|k: int| 0 <= k < ds.len() implies is_digit(#[trigger] ds[k]) by {
            if k < prev.len() {
                assert(ds[k] == prev[k]);
            }
        }
        assert(digits_value(ds) == digits_value(prev) * 10 + digit_value(digit_char(d)));
    } else {
        let ds = seq![digit_char(d)];
        assert(ds.drop_last() =~= Seq::<char>::empty());
        assert(digits_value(ds) == digits_value(Seq::<char>::empty()) * 10 + digit_value(digit_char(d)));
    }
}

/// The keyword that a type is written with.
pub open spec fn type_keyword(d: DataType) -> Seq<char> {
    match d {
        DataType::Int => "int"@,
        DataType::Bool => "boolean"@,
        DataType::BigInt => "bigint"@,
        DataType::Date => "date"@,
        DataType::DateTime => "datetime"@,
        DataType::Time => "time"@,
        DataType::Double => "double"@,
        DataType::Float => "float"@,
        DataType::Uuid => "uuid"@,
        DataType::VarChar(_) => "varchar"@,
        DataType::Char(_) => "char"@,
        DataType::Text(_) => "text"@,
        DataType::Decimal(_, _) => "decimal"@,
    }
}

/// The numeric arguments that a type is written with.
pub open spec fn type_args(d: DataType) -> Seq<Seq<char>> {
    match d {
        DataType::VarChar(n) => seq![decimal_digits(n as nat)],
        DataType::Char(n) => seq![decimal_digits(n as nat)],
        DataType::Text(n) => seq![decimal_digits(n as nat)],
        DataType::Decimal(p, q) => seq![decimal_digits(p as nat), decimal_digits(q as nat)],
        _ => seq![],
    }
}

/// The text of the arguments: nothing, `(n)` or `(p, s)`.
pub open spec fn arg_text(d: DataType) -> Seq<char> {
    match d {
        DataType::VarChar(n) => seq!['('] + decimal_digits(n as nat) + seq![')'],
        DataType::Char(n) => seq!['('] + decimal_digits(n as nat) + seq![')'],
        DataType::Text(n) => seq!['('] + decimal_digits(n as nat) + seq![')'],
        DataType::Decimal(p, q) => seq!['('] + decimal_digits(p as nat) + seq![',', ' ']
            + decimal_digits(q as nat) + seq![')'],
        _ => seq![],
    }
}

proof fn lemma_format_split(d: DataType)
    ensures
        format_spec(d) == type_keyword(d) + arg_text(d),
        type_keyword(d).len() > 0,
        forall|k: int| 0 <= k < type_keyword(d).len() ==> is_word_char(#[trigger] type_keyword(d)[k]),
{
    reveal_strlit("int");
    reveal_strlit("boolean");
    reveal_strlit("bigint");
    reveal_strlit("date");
    reveal_strlit("datetime");
    reveal_strlit("time");
    reveal_strlit("double");
    reveal_strlit("float");
    reveal_strlit("uuid");
    reveal_strlit("varchar");
    reveal_strlit("char");
    reveal_strlit("text");
    reveal_strlit("decimal");
    reveal_strlit("varchar(");
    reveal_strlit("char(");
    reveal_strlit("text(");
    reveal_strlit("decimal(");
    reveal_strlit(")");
    reveal_strlit(", ");
    match d {
        DataType::VarChar(n) => {
            assert(format_spec(d) =~= type_keyword(d) + arg_text(d));
        },
        DataType::Char(n) => {
            assert(format_spec(d) =~= type_keyword(d) + arg_text(d));
        },
        DataType::Text(n) => {
            assert(format_spec(d) =~= type_keyword(d) + arg_text(d));
        },
        DataType::Decimal(p, q) => {
            assert(format_spec(d) =~= type_keyword(d) + arg_text(d));
        },
        _ => {
            assert(format_spec(d) =~= type_keyword(d) + arg_text(d));
        },
    }
}

/// Every type but `bool`, which SQL and TSQL output spell `boolean`, decodes
/// from its keyword and arguments.
proof fn lemma_decode_format(d: DataType)
    requires
        d != DataType::Bool,
    ensures
        decode_spec(type_keyword(d), type_args(d)) == Some(RawTypeModel::Known(d)),
{
    reveal_strlit("int");
    reveal_strlit("bool");
    reveal_strlit("bigint");
    reveal_strlit("date");
    reveal_strlit("datetime");
    reveal_strlit("time");
    reveal_strlit("double");
    reveal_strlit("float");
    reveal_strlit("uuid");
    reveal_strlit("_");
    reveal_strlit("varchar");
    reveal_strlit("char");
    reveal_strlit("text");
    reveal_strlit("decimal");
    let kw = type_keyword(d);
    assert(d is VarChar || d is Char || d is Text || d is Decimal || !crate::parser::types::takes_arguments(kw)) by {
        if !(d is VarChar || d is Char || d is Text || d is Decimal) {
            assert(kw != "varchar"@ && kw != "decimal"@) by {
                if kw == "varchar"@ || kw == "decimal"@ { assert(kw.len() == 7); }
            }
            assert(kw != "char"@ && kw != "text"@) by {
                if kw == "char"@ { assert(kw.len() == 4 && kw[0] == 'c' && kw[1] == 'h'); }
                if kw == "text"@ { assert(kw.len() == 4 && kw[0] == 't' && kw[1] == 'e'); }
            }
        }
    }
    match d {
        DataType::VarChar(n) => {
            lemma_decimal_digits(n as nat);
            assert(num_arg(decimal_digits(n as nat), 65535) == Some(n as nat));
            let args = type_args(d);
            assert(args.len() == 1 && args[0] == decimal_digits(n as nat));
            assert(kw == "varchar"@);
            assert(args.len() != 0);
            assert(((n as nat) as u16) == n);
            assert(args.len() == 1 && kw == "varchar"@);
            assert(decode_spec(kw, args) == match num_arg(args[0], 65535) {
                Some(m) => Some(RawTypeModel::Known(DataType::VarChar(m as u16))),
                None => None,
            });
            assert(num_arg(args[0], 65535) == Some(n as nat));
            assert(decode_spec(kw, args) == Some(RawTypeModel::Known(DataType::VarChar(n))));
            assert(d == DataType::VarChar(n));
            assert(decode_spec(type_keyword(d), type_args(d)) == Some(RawTypeModel::Known(d)));
        },
        DataType::Char(n) => {
            lemma_decimal_digits(n as nat);
            assert(num_arg(decimal_digits(n as nat), 255) == Some(n as nat));
            assert(kw[0] != "varchar"@[0]);
            assert(decode_spec(type_keyword(d), type_args(d)) == Some(RawTypeModel::Known(d)));
        },
        DataType::Text(n) => {
            lemma_decimal_digits(n as nat);
            assert(num_arg(decimal_digits(n as nat), 65535) == Some(n as nat));
            assert(kw[0] != "varchar"@[0]);
            assert(kw[0] != "char"@[0]);
            assert(decode_spec(type_keyword(d), type_args(d)) == Some(RawTypeModel::Known(d)));
        },
        DataType::Decimal(p, q) => {
            lemma_decimal_digits(p as nat);
            lemma_decimal_digits(q as nat);
            assert(num_arg(decimal_digits(p as nat), 255) == Some(p as nat));
            assert(num_arg(decimal_digits(q as nat), 255) == Some(q as nat));
            assert(decode_spec(type_keyword(d), type_args(d)) == Some(RawTypeModel::Known(d)));
        },
        DataType::Int => {
            assert(kw == "int"@);
        },
        DataType::BigInt => {
            assert(kw[0] != "int"@[0]);
            assert(kw[1] != "bool"@[1]);
            assert(decode_spec(type_keyword(d), type_args(d)) == Some(RawTypeModel::Known(d)));
        },
        DataType::Date => {
            assert(kw[0] != "int"@[0]);
            assert(kw[0] != "bool"@[0]);
            assert(decode_spec(type_keyword(d), type_args(d)) == Some(RawTypeModel::Known(d)));
        },
        DataType::DateTime => {
            assert(kw[0] != "int"@[0]);
            assert(kw.len() != "bool"@.len());
            assert(kw.len() != "bigint"@.len());
            assert(kw.len() != "date"@.len());
            assert(decode_spec(type_keyword(d), type_args(d)) == Some(RawTypeModel::Known(d)));
        },
        DataType::Time => {
            assert(kw[0] != "bool"@[0]);
            assert(kw[0] != "date"@[0]);
            assert(decode_spec(type_keyword(d), type_args(d)) == Some(RawTypeModel::Known(d)));
        },
        DataType::Double => {
            assert(kw[0] != "bigint"@[0]);
            assert(kw.len() != "int"@.len());
            assert(kw.len() != "bool"@.len());
            assert(kw.len() != "date"@.len());
            assert(kw.len() != "datetime"@.len());
            assert(kw.len() != "time"@.len());
            assert(decode_spec(type_keyword(d), type_args(d)) == Some(RawTypeModel::Known(d)));
        },
        DataType::Float => {
            assert(kw.len() != "int"@.len());
            assert(kw.len() != "bool"@.len());
            assert(kw.len() != "bigint"@.len());
            assert(kw.len() != "date"@.len());
            assert(kw.len() != "datetime"@.len());
            assert(kw.len() != "time"@.len());
            assert(kw.len() != "double"@.len());
        },
        DataType::Uuid => {
            assert(kw[0] != "bool"@[0]);
            assert(kw[0] != "date"@[0]);
            assert(kw[0] != "time"@[0]);
            assert(decode_spec(type_keyword(d), type_args(d)) == Some(RawTypeModel::Known(d)));
        },
        DataType::Bool => {},
    }
}

proof fn lemma_tuple_one(s: Seq<char>, i: int, ds: Seq<char>)
    requires
        at(s, i, seq!['('] + ds + seq![')']),
        ds.len() > 0,
        forall|k: int| 0 <= k < ds.len() ==> is_digit(#[trigger] ds[k]),
    ensures
        tuple_list(s, i, true) == Some((i + ds.len() + 2, seq![ds])),
{
    lemma_at_split(s, i, seq!['('] + ds, seq![')']);
    lemma_at_split(s, i, seq!['('], ds);
    lemma_at_index(s, i, seq!['('], 0);
    lemma_at_index(s, i + 1 + ds.len(), seq![')'], 0);
    lemma_digit_end_at(s, i + 1, ds);
    let e = i + 1 + ds.len();
    assert(blank_end(s, e) == e);
    assert(sep_end(s, e) is None);
    assert(list_tail(s, e, true) == (e, Seq::<Seq<char>>::empty()));
    assert(s.subrange(i + 1, e) == ds);
    assert(seq![ds] + Seq::<Seq<char>>::empty() =~= seq![ds]);
}

proof fn lemma_tuple_two(s: Seq<char>, i: int, d1: Seq<char>, d2: Seq<char>)
    requires
        at(s, i, seq!['('] + d1 + seq![',', ' '] + d2 + seq![')']),
        d1.len() > 0,
        d2.len() > 0,
        forall|k: int| 0 <= k < d1.len() ==> is_digit(#[trigger] d1[k]),
        forall|k: int| 0 <= k < d2.len() ==> is_digit(#[trigger] d2[k]),
    ensures
        tuple_list(s, i, true) == Some((i + d1.len() + d2.len() + 4, seq![d1, d2])),
{
    let x = seq!['('] + d1 + seq![',', ' '] + d2;
    lemma_at_split(s, i, x, seq![')']);
    lemma_at_split(s, i, seq!['('] + d1 + seq![',', ' '], d2);
    lemma_at_split(s, i, seq!['('] + d1, seq![',', ' ']);
    lemma_at_split(s, i, seq!['('], d1);
    lemma_at_index(s, i, seq!['('], 0);
    let e1 = i + 1 + d1.len();
    let k = e1 + 2;
    let e2 = k + d2.len();
    lemma_at_index(s, e1, seq![',', ' '], 0);
    lemma_at_index(s, e1, seq![',', ' '], 1);
    lemma_at_index(s, e2, seq![')'], 0);
    lemma_digit_end_at(s, i + 1, d1);
    lemma_digit_end_at(s, k, d2);
    assert(blank_end(s, e1) == e1);
    assert(blank_end(s, e1 + 2) == e1 + 2);
    assert(blank_end(s, e1 + 1) == e1 + 2);
    assert(sep_end(s, e1) == Some(k));
    assert(item_end(s, k, true) == e2);
    assert(blank_end(s, e2) == e2);
    assert(sep_end(s, e2) is None);
    assert(list_tail(s, e2, true) == (e2, Seq::<Seq<char>>::empty()));
    assert(s.subrange(k, e2) == d2);
    assert(s.subrange(i + 1, e1) == d1);
    assert(list_tail(s, e1, true) == (e2, seq![d2] + Seq::<Seq<char>>::empty()));
    assert(seq![d2] + Seq::<Seq<char>>::empty() =~= seq![d2]);
    assert(seq![d1] + seq![d2] =~= seq![d1, d2]);
}

/// A column that the TSQL text can carry back: an identifier for a name, no
/// `bool` type (written `boolean`, which reads back as a table name) and no
/// reference.
pub open spec fn column_ok(f: FieldModel) -> bool {
    identifier(f.name) && f.datatype != DataType::Bool && f.reference is None
}

/// How a column's TSQL line reads as a field declaration.
pub open spec fn column_syntax(f: FieldModel) -> FieldSyntax {
    FieldSyntax {
        foreign_key: false,
        kind: type_keyword(f.datatype),
        args: type_args(f.datatype),
        name: f.name,
    }
}

/// The declaration that a column reads back as.
pub open spec fn column_raw(f: FieldModel) -> RawFieldModel {
    RawFieldModel { name: f.name, datatype: RawTypeModel::Known(f.datatype), foreign_key: false }
}

/// The line of a column without its closing comma and line break.
pub open spec fn column_body(f: FieldModel) -> Seq<char> {
    seq!['\t'] + type_keyword(f.datatype) + arg_text(f.datatype) + seq![' '] + f.name
}

proof fn lemma_column_split(f: FieldModel)
    ensures
        tsql_column(f) == column_body(f) + seq![',', '\n'],
{
    reveal_strlit("\t");
    reveal_strlit(" ");
    reveal_strlit(",\n");
    lemma_format_split(f.datatype);
    assert(tsql_column(f) =~= column_body(f) + seq![',', '\n']);
}

proof fn lemma_field_at(s: Seq<char>, q: int, f: FieldModel)
    requires
        at(s, q, seq!['\n'] + column_body(f) + seq![',']),
        column_ok(f),
    ensures
        field_syntax(s, q) == Some((q + 1 + column_body(f).len(), column_syntax(f))),
{
    let d = f.datatype;
    let kw = type_keyword(d);
    let at_ = arg_text(d);
    let name = f.name;
    lemma_format_split(d);
    let x1 = seq!['\n', '\t'];
    assert(seq!['\n'] + column_body(f) + seq![','] =~= x1 + kw + at_ + seq![' '] + name + seq![',']);
    lemma_at_split(s, q, x1 + kw + at_ + seq![' '] + name, seq![',']);
    lemma_at_split(s, q, x1 + kw + at_ + seq![' '], name);
    lemma_at_split(s, q, x1 + kw + at_, seq![' ']);
    lemma_at_split(s, q, x1 + kw, at_);
    lemma_at_split(s, q, x1, kw);
    let a = q + 2;
    let t = a + kw.len();
    let p = t + at_.len();
    let n0 = p + 1;
    let n = n0 + name.len();
    lemma_at_index(s, a, kw, 0);
    lemma_word_char_facts(kw[0]);
    lemma_at_index(s, q, x1, 0);
    lemma_at_index(s, q, x1, 1);
    lemma_blank_end_at(s, q, x1);
    reveal_strlit("@foreign_key()");
    assert(!lit_at(s, a, "@foreign_key()"@)) by {
        if lit_at(s, a, "@foreign_key()"@) {
            assert(s.subrange(a, a + 14)[0] == s[a]);
        }
    }
    assert(blank_end(s, a) == a);
    lemma_at_index(s, p, seq![' '], 0);
    lemma_at_index(s, n0, name, 0);
    lemma_word_char_facts(name[0]);
    lemma_at_index(s, n, seq![','], 0);
    if at_.len() > 0 {
        lemma_at_index(s, t, at_, 0);
    }
    assert(!is_word_char(s[t])) by {
        if at_.len() > 0 {
            assert(at_[0] == '(');
        }
    }
    lemma_word_end_at(s, a, kw);
    match d {
        DataType::VarChar(m) => {
            lemma_decimal_digits(m as nat);
            lemma_tuple_one(s, t, decimal_digits(m as nat));
        },
        DataType::Char(m) => {
            lemma_decimal_digits(m as nat);
            lemma_tuple_one(s, t, decimal_digits(m as nat));
        },
        DataType::Text(m) => {
            lemma_decimal_digits(m as nat);
            lemma_tuple_one(s, t, decimal_digits(m as nat));
        },
        DataType::Decimal(m1, m2) => {
            lemma_decimal_digits(m1 as nat);
            lemma_decimal_digits(m2 as nat);
            lemma_tuple_two(s, t, decimal_digits(m1 as nat), decimal_digits(m2 as nat));
        },
        _ => {
            assert(tuple_list(s, t, true) is None);
        },
    }
    lemma_blank_end_at(s, p, seq![' ']);
    lemma_word_end_at(s, n0, name);
    assert(s.subrange(a, t) == kw);
    assert(s.subrange(n0, n) == name);
}

/// The lines of the columns `fs`, each after a comma and a line break.
proof fn lemma_columns_front(fs: Seq<FieldModel>)
    requires
        fs.len() > 0,
    ensures
        tsql_columns(fs) == tsql_column(fs[0]) + tsql_columns(fs.drop_first()),
    decreases fs.len(),
{
    if fs.len() == 1 {
        assert(fs.drop_last() =~= Seq::<FieldModel>::empty());
        assert(fs.drop_first() =~= Seq::<FieldModel>::empty());
        assert(tsql_columns(fs) =~= tsql_column(fs[0]) + tsql_columns(fs.drop_first()));
    } else {
        lemma_columns_front(fs.drop_last());
        assert(fs.drop_last().drop_first() =~= fs.drop_first().drop_last());
        assert(fs.drop_first().last() == fs.last());
        assert(fs.drop_last()[0] == fs[0]);
        assert(tsql_columns(fs) =~= tsql_column(fs[0]) + tsql_columns(fs.drop_first()));
    }
}

proof fn lemma_field_tail_at(s: Seq<char>, e: int, fs: Seq<FieldModel>)
    requires
        at(s, e, seq![',', '\n'] + tsql_columns(fs) + seq!['}']),
        forall|k: int| 0 <= k < fs.len() ==> column_ok(#[trigger] fs[k]),
    ensures
        field_tail(s, e) == (e + tsql_columns(fs).len(), fs.map_values(|f: FieldModel| column_syntax(f))),
    decreases fs.len(),
{
    let cols = tsql_columns(fs);
    lemma_at_split(s, e, seq![',', '\n'] + cols, seq!['}']);
    lemma_at_split(s, e, seq![',', '\n'], cols);
    lemma_at_index(s, e, seq![',', '\n'], 0);
    lemma_at_index(s, e, seq![',', '\n'], 1);
    if fs.len() == 0 {
        assert(cols.len() == 0);
        lemma_at_index(s, e + 2, seq!['}'], 0);
        assert(seq![',', '\n'] =~= seq![','] + seq!['\n']);
        lemma_at_split(s, e, seq![','], seq!['\n']);
        lemma_blank_end_at(s, e + 1, seq!['\n']);
        assert(!lit_at(s, e + 2, "@foreign_key()"@)) by {
            reveal_strlit("@foreign_key()");
            if lit_at(s, e + 2, "@foreign_key()"@) {
                assert(s.subrange(e + 2, e + 16)[0] == s[e + 2]);
            }
        }
        assert(blank_end(s, e + 2) == e + 2);
        assert(word_end(s, e + 2) == e + 2);
        assert(field_syntax(s, e + 1) is None);
        assert(fs.map_values(|f: FieldModel| column_syntax(f)) =~= Seq::<FieldSyntax>::empty());
    } else {
        let f0 = fs[0];
        let rest = fs.drop_first();
        lemma_columns_front(fs);
        lemma_column_split(f0);
        let body = column_body(f0);
        let text = seq![',', '\n'] + cols + seq!['}'];
        assert(text =~= seq![','] + (seq!['\n'] + body + seq![','])
            + (seq!['\n'] + tsql_columns(rest) + seq!['}']));
        lemma_at_split(s, e, seq![','] + (seq!['\n'] + body + seq![',']), seq!['\n'] + tsql_columns(rest) + seq!['}']);
        lemma_at_split(s, e, seq![','], seq!['\n'] + body + seq![',']);
        lemma_field_at(s, e + 1, f0);
        let e2 = e + 2 + body.len();
        assert(at(s, e2, seq![',', '\n'] + tsql_columns(rest) + seq!['}'])) by {
            lemma_at_split(s, e + 1, seq!['\n'] + body, seq![',']);
            lemma_at_join(s, e2, seq![','], seq!['\n'] + tsql_columns(rest) + seq!['}']);
            assert(seq![','] + (seq!['\n'] + tsql_columns(rest) + seq!['}']) =~= seq![',', '\n']
                + tsql_columns(rest) + seq!['}']);
        }
        assert forall|k: int| 0 <= k < rest.len() implies column_ok(#[trigger] rest[k]) by {
            assert(rest[k] == fs[k + 1]);
        }
        lemma_field_tail_at(s, e2, rest);
        assert(fs.map_values(|f: FieldModel| column_syntax(f)) =~= seq![column_syntax(f0)]
            + rest.map_values(|f: FieldModel| column_syntax(f)));
    }
}

proof fn lemma_columns_end(fs: Seq<FieldModel>)
    requires
        fs.len() > 0,
    ensures
        tsql_columns(fs).len() >= 2,
        tsql_columns(fs)[tsql_columns(fs).len() - 2] == ',',
{
    lemma_column_split(fs.last());
    let prev = tsql_columns(fs.drop_last());
    assert(tsql_columns(fs) == prev + tsql_column(fs.last()));
    assert(tsql_columns(fs)[tsql_columns(fs).len() - 2] == tsql_column(fs.last())[tsql_column(
        fs.last(),
    ).len() - 2]);
}

proof fn lemma_field_list_at(s: Seq<char>, i: int, fs: Seq<FieldModel>)
    requires
        at(s, i, seq!['\n'] + tsql_columns(fs) + seq!['}']),
        fs.len() > 0,
        forall|k: int| 0 <= k < fs.len() ==> column_ok(#[trigger] fs[k]),
    ensures
        field_list(s, i) == Some((i + tsql_columns(fs).len(), fs.map_values(|f: FieldModel| column_syntax(f)))),
{
    let f0 = fs[0];
    let rest = fs.drop_first();
    lemma_columns_front(fs);
    lemma_column_split(f0);
    let body = column_body(f0);
    assert(seq!['\n'] + tsql_columns(fs) + seq!['}'] =~= (seq!['\n'] + body + seq![','])
        + (seq!['\n'] + tsql_columns(rest) + seq!['}']));
    lemma_at_split(s, i, seq!['\n'] + body + seq![','], seq!['\n'] + tsql_columns(rest) + seq!['}']);
    lemma_field_at(s, i, f0);
    let e0 = i + 1 + body.len();
    lemma_at_split(s, i, seq!['\n'] + body, seq![',']);
    lemma_at_join(s, e0, seq![','], seq!['\n'] + tsql_columns(rest) + seq!['}']);
    assert(seq![','] + (seq!['\n'] + tsql_columns(rest) + seq!['}']) =~= seq![',', '\n']
        + tsql_columns(rest) + seq!['}']);
    assert forall|k: int| 0 <= k < rest.len() implies column_ok(#[trigger] rest[k]) by {
        assert(rest[k] == fs[k + 1]);
    }
    lemma_field_tail_at(s, e0, rest);
    let p = e0 + tsql_columns(rest).len();
    lemma_columns_end(fs);
    lemma_at_index(s, i, seq!['\n'] + tsql_columns(fs) + seq!['}'], tsql_columns(fs).len() - 1);
    assert(s[p] == ',');
    assert(fs.map_values(|f: FieldModel| column_syntax(f)) =~= seq![column_syntax(f0)]
        + rest.map_values(|f: FieldModel| column_syntax(f)));
}

/// The names `ys`, each after a comma and a space.
pub open spec fn join_tail(ys: Seq<Seq<char>>) -> Seq<char>
    decreases ys.len(),
{
    if ys.len() == 0 {
        seq![]
    } else {
        seq![',', ' '] + ys[0] + join_tail(ys.drop_first())
    }
}

proof fn lemma_join_tail_push(ys: Seq<Seq<char>>, z: Seq<char>)
    ensures
        join_tail(ys.push(z)) == join_tail(ys) + seq![',', ' '] + z,
    decreases ys.len(),
{
    if ys.len() == 0 {
        assert(ys.push(z).drop_first() =~= Seq::<Seq<char>>::empty());
        assert(ys.push(z)[0] == z);
        assert(join_tail(ys.push(z).drop_first()) == Seq::<char>::empty());
        assert(join_tail(ys.push(z)) == seq![',', ' '] + z + Seq::<char>::empty());
        assert(join_tail(ys.push(z)) =~= join_tail(ys) + seq![',', ' '] + z);
    } else {
        assert(ys.push(z).drop_first() =~= ys.drop_first().push(z));
        assert(ys.push(z)[0] == ys[0]);
        lemma_join_tail_push(ys.drop_first(), z);
        assert(join_tail(ys.push(z)) == seq![',', ' '] + ys[0] + join_tail(ys.drop_first().push(z)));
        assert(join_tail(ys.push(z)) =~= join_tail(ys) + seq![',', ' '] + z);
    }
}

proof fn lemma_join_front(xs: Seq<Seq<char>>)
    requires
        xs.len() > 0,
    ensures
        join(xs, ", "@) == xs[0] + join_tail(xs.drop_first()),
    decreases xs.len(),
{
    reveal_strlit(", ");
    if xs.len() == 1 {
        assert(xs.drop_first() =~= Seq::<Seq<char>>::empty());
        assert(xs[0] + join_tail(xs.drop_first()) =~= xs[0]);
    } else {
        lemma_join_front(xs.drop_last());
        assert(xs.drop_last().drop_first().push(xs.last()) =~= xs.drop_first());
        lemma_join_tail_push(xs.drop_last().drop_first(), xs.last());
        assert(xs.drop_last()[0] == xs[0]);
        assert(join(xs, ", "@) =~= xs[0] + join_tail(xs.drop_first()));
    }
}

proof fn lemma_list_tail_words(s: Seq<char>, e: int, ys: Seq<Seq<char>>)
    requires
        at(s, e, join_tail(ys) + seq![')']),
        forall|k: int| 0 <= k < ys.len() ==> identifier(#[trigger] ys[k]),
    ensures
        list_tail(s, e, false) == (e + join_tail(ys).len(), ys),
    decreases ys.len(),
{
    if ys.len() == 0 {
        lemma_at_index(s, e, join_tail(ys) + seq![')'], 0);
        assert(blank_end(s, e) == e);
        assert(ys =~= Seq::<Seq<char>>::empty());
    } else {
        let y0 = ys[0];
        let rest = ys.drop_first();
        assert(identifier(y0));
        assert(join_tail(ys) + seq![')'] =~= seq![',', ' '] + y0 + (join_tail(rest) + seq![')']));
        lemma_at_split(s, e, seq![',', ' '] + y0, join_tail(rest) + seq![')']);
        lemma_at_split(s, e, seq![',', ' '], y0);
        lemma_at_index(s, e, seq![',', ' '], 0);
        lemma_at_index(s, e, seq![',', ' '], 1);
        assert(seq![',', ' '] =~= seq![','] + seq![' ']);
        lemma_at_split(s, e, seq![','], seq![' ']);
        lemma_at_index(s, e + 2, y0, 0);
        lemma_word_char_facts(y0[0]);
        assert(blank_end(s, e) == e);
        lemma_blank_end_at(s, e + 1, seq![' ']);
        let e2 = e + 2 + y0.len();
        lemma_at_index(s, e2, join_tail(rest) + seq![')'], 0);
        assert(!is_word_char(s[e2])) by {
            if rest.len() > 0 {
                assert((join_tail(rest) + seq![')'])[0] == ',');
            }
        }
        lemma_word_end_at(s, e + 2, y0);
        assert forall|k: int| 0 <= k < rest.len() implies identifier(#[trigger] rest[k]) by {
            assert(rest[k] == ys[k + 1]);
        }
        lemma_list_tail_words(s, e2, rest);
        assert(s.subrange(e + 2, e2) == y0);
        assert(seq![y0] + rest =~= ys);
    }
}

proof fn lemma_tuple_words(s: Seq<char>, i: int, xs: Seq<Seq<char>>)
    requires
        at(s, i, seq!['('] + join(xs, ", "@) + seq![')']),
        xs.len() > 0,
        forall|k: int| 0 <= k < xs.len() ==> identifier(#[trigger] xs[k]),
    ensures
        tuple_list(s, i, false) == Some((i + join(xs, ", "@).len() + 2, xs)),
{
    lemma_join_front(xs);
    let x0 = xs[0];
    let rest = xs.drop_first();
    assert(identifier(x0));
    assert(seq!['('] + join(xs, ", "@) + seq![')'] =~= seq!['('] + x0 + (join_tail(rest) + seq![')']));
    lemma_at_split(s, i, seq!['('] + x0, join_tail(rest) + seq![')']);
    lemma_at_split(s, i, seq!['('], x0);
    lemma_at_index(s, i, seq!['('], 0);
    let e = i + 1 + x0.len();
    lemma_at_index(s, e, join_tail(rest) + seq![')'], 0);
    assert(!is_word_char(s[e])) by {
        if rest.len() > 0 {
            assert((join_tail(rest) + seq![')'])[0] == ',');
        }
    }
    lemma_word_end_at(s, i + 1, x0);
    assert forall|k: int| 0 <= k < rest.len() implies identifier(#[trigger] rest[k]) by {
        assert(rest[k] == xs[k + 1]);
    }
    lemma_list_tail_words(s, e, rest);
    let p = e + join_tail(rest).len();
    lemma_at_index(s, e, join_tail(rest) + seq![')'], join_tail(rest).len() as int);
    assert(s.subrange(i + 1, e) == x0);
    assert(seq![x0] + rest =~= xs);
}

/// No closing brace among the characters.
pub open spec fn no_brace(x: Seq<char>) -> bool {
    forall|k: int| 0 <= k < x.len() ==> #[trigger] x[k] != '}'
}

proof fn lemma_no_brace_concat(a: Seq<char>, b: Seq<char>)
    requires
        no_brace(a),
        no_brace(b),
    ensures
        no_brace(a + b),
{
    assert forall|k: int| 0 <= k < (a + b).len() implies #[trigger] (a + b)[k] != '}' by {
        if k < a.len() {
            assert((a + b)[k] == a[k]);
        } else {
            assert((a + b)[k] == b[k - a.len()]);
        }
    }
}

proof fn lemma_columns_no_brace(fs: Seq<FieldModel>)
    requires
        forall|k: int| 0 <= k < fs.len() ==> column_ok(#[trigger] fs[k]),
    ensures
        no_brace(tsql_columns(fs)),
    decreases fs.len(),
{
    if fs.len() > 0 {
        assert forall|k: int| 0 <= k < fs.drop_last().len() implies column_ok(#[trigger] fs.drop_last()[k]) by {
            assert(fs.drop_last()[k] == fs[k]);
        }
        lemma_columns_no_brace(fs.drop_last());
        let f = fs.last();
        assert(column_ok(f));
        lemma_column_split(f);
        lemma_format_split(f.datatype);
        let d = f.datatype;
        assert(no_brace(type_keyword(d))) by {
            assert forall|k: int| 0 <= k < type_keyword(d).len() implies #[trigger] type_keyword(d)[k] != '}' by {
                lemma_word_char_facts(type_keyword(d)[k]);
            }
        }
        assert(no_brace(arg_text(d))) by {
            match d {
                DataType::VarChar(m) => {
                    lemma_decimal_digits(m as nat);
                },
                DataType::Char(m) => {
                    lemma_decimal_digits(m as nat);
                },
                DataType::Text(m) => {
                    lemma_decimal_digits(m as nat);
                },
                DataType::Decimal(m1, m2) => {
                    lemma_decimal_digits(m1 as nat);
                    lemma_decimal_digits(m2 as nat);
                },
                _ => {},
            }
            assert forall|k: int| 0 <= k < arg_text(d).len() implies #[trigger] arg_text(d)[k] != '}' by {
                match d {
                    DataType::VarChar(m) => {
                        let ds = decimal_digits(m as nat);
                        if 1 <= k < 1 + ds.len() {
                            assert(arg_text(d)[k] == ds[k - 1]);
                        }
                    },
                    DataType::Char(m) => {
                        let ds = decimal_digits(m as nat);
                        if 1 <= k < 1 + ds.len() {
                            assert(arg_text(d)[k] == ds[k - 1]);
                        }
                    },
                    DataType::Text(m) => {
                        let ds = decimal_digits(m as nat);
                        if 1 <= k < 1 + ds.len() {
                            assert(arg_text(d)[k] == ds[k - 1]);
                        }
                    },
                    DataType::Decimal(m1, m2) => {
                        let d1 = decimal_digits(m1 as nat);
                        let d2 = decimal_digits(m2 as nat);
                        if 1 <= k < 1 + d1.len() {
                            assert(arg_text(d)[k] == d1[k - 1]);
                        }
                        if 3 + d1.len() <= k < 3 + d1.len() + d2.len() {
                            assert(arg_text(d)[k] == d2[k - 3 - d1.len()]);
                        }
                    },
                    _ => {},
                }
            }
        }
        assert(no_brace(f.name)) by {
            assert forall|k: int| 0 <= k < f.name.len() implies #[trigger] f.name[k] != '}' by {
                lemma_word_char_facts(f.name[k]);
            }
        }
        lemma_no_brace_concat(seq!['\t'], type_keyword(d));
        lemma_no_brace_concat(seq!['\t'] + type_keyword(d), arg_text(d));
        lemma_no_brace_concat(seq!['\t'] + type_keyword(d) + arg_text(d), seq![' ']);
        lemma_no_brace_concat(seq!['\t'] + type_keyword(d) + arg_text(d) + seq![' '], f.name);
        lemma_no_brace_concat(column_body(f), seq![',', '\n']);
        lemma_no_brace_concat(tsql_columns(fs.drop_last()), tsql_column(f));
    }
}

proof fn lemma_close_brace_at(s: Seq<char>, j: int, x: Seq<char>)
    requires
        at(s, j, x + seq!['}']),
        no_brace(x),
    ensures
        close_brace(s, j) == j + x.len(),
    decreases x.len(),
{
    lemma_at_split(s, j, x, seq!['}']);
    if x.len() == 0 {
        lemma_at_index(s, j, seq!['}'], 0);
    } else {
        lemma_at_index(s, j, x, 0);
        assert(x + seq!['}'] =~= seq![x[0]] + (x.drop_first() + seq!['}']));
        lemma_at_split(s, j, seq![x[0]], x.drop_first() + seq!['}']);
        lemma_close_brace_at(s, j + 1, x.drop_first());
    }
}

/// A table that its TSQL text can carry back: identifiers for names, at least
/// one column, each as `column_ok` says, distinct column names, and a primary
/// key whose names name columns.
pub open spec fn table_ok(t: TableModel) -> bool {
    &&& identifier(t.name)
    &&& forall|k: int| 0 <= k < t.primary_key.len() ==> identifier(#[trigger] t.primary_key[k])
    &&& t.fields.len() > 0
    &&& forall|k: int| 0 <= k < t.fields.len() ==> column_ok(#[trigger] t.fields[k])
    &&& forall|j: int, k: int| 0 <= j < k < t.fields.len() ==> t.fields[j].name != t.fields[k].name
    &&& missing_pk(t.fields, t.primary_key) is None
}

proof fn lemma_table_at(s: Seq<char>, i: int, t: TableModel)
    requires
        at(s, i, tsql_table(t)),
        table_ok(t),
    ensures
        table_syntax(s, i) == Some(
            (
                i + tsql_table(t).len() - 1,
                TableSyntax {
                    primary_key: t.primary_key,
                    name: t.name,
                    fields: t.fields.map_values(|f: FieldModel| column_syntax(f)),
                },
            ),
        ),
{
    reveal_strlit("table ");
    reveal_strlit("table");
    reveal_strlit(" {\n");
    reveal_strlit("};\n");
    reveal_strlit("@primary_key(");
    reveal_strlit("@primary_key");
    reveal_strlit(")\n");
    let pk = t.primary_key;
    let name = t.name;
    let cols = tsql_columns(t.fields);
    let pt = tsql_primary_key(pk);
    let rest = seq!['t', 'a', 'b', 'l', 'e', ' '] + name + seq![' ', '{'] + (seq!['\n'] + cols
        + seq!['}']) + seq![';', '\n'];
    assert(tsql_table(t) =~= pt + rest);
    lemma_at_split(s, i, pt, rest);
    let b = i + pt.len();
    lemma_at_split(s, b, seq!['t', 'a', 'b', 'l', 'e', ' '] + name + seq![' ', '{'] + (seq!['\n']
        + cols + seq!['}']), seq![';', '\n']);
    lemma_at_split(s, b, seq!['t', 'a', 'b', 'l', 'e', ' '] + name + seq![' ', '{'], seq!['\n'] + cols
        + seq!['}']);
    lemma_at_split(s, b, seq!['t', 'a', 'b', 'l', 'e', ' '] + name, seq![' ', '{']);
    lemma_at_split(s, b, seq!['t', 'a', 'b', 'l', 'e', ' '], name);
    lemma_at_index(s, b, seq!['t', 'a', 'b', 'l', 'e', ' '], 0);
    lemma_at_index(s, b, seq!['t', 'a', 'b', 'l', 'e', ' '], 5);
    // the annotation
    if pk.len() == 0 {
        assert(pt.len() == 0);
        assert(!lit_at(s, i, "@primary_key"@)) by {
            if lit_at(s, i, "@primary_key"@) {
                assert(s.subrange(i, i + 12)[0] == s[i]);
            }
        }
        assert(table_extra_syntax(s, i) == (i, Seq::<Seq<char>>::empty()));
        assert(pk =~= Seq::<Seq<char>>::empty());
        assert(blank_end(s, i) == i);
    } else {
        let jn = join(pk, ", "@);
        assert(pt =~= "@primary_key"@ + (seq!['('] + jn + seq![')']) + seq!['\n']);
        lemma_at_split(s, i, "@primary_key"@ + (seq!['('] + jn + seq![')']), seq!['\n']);
        lemma_at_split(s, i, "@primary_key"@, seq!['('] + jn + seq![')']);
        lemma_tuple_words(s, i + 12, pk);
        let a = i + 12 + jn.len() + 2;
        lemma_at_index(s, a, seq!['\n'], 0);
        lemma_blank_end_at(s, a, seq!['\n']);
        assert(table_extra_syntax(s, i) == (a, pk));
    }
    assert(blank_end(s, table_extra_syntax(s, i).0) == b);
    assert(seq!['t', 'a', 'b', 'l', 'e', ' '] =~= seq!['t', 'a', 'b', 'l', 'e'] + seq![' ']);
    lemma_at_split(s, b, seq!['t', 'a', 'b', 'l', 'e'], seq![' ']);
    assert("table"@ =~= seq!['t', 'a', 'b', 'l', 'e']);
    assert(lit_at(s, b, "table"@));
    let c = b + 5;
    let d = c + 1;
    let e = d + name.len();
    let f = e + 1;
    lemma_at_index(s, d, name, 0);
    lemma_word_char_facts(name[0]);
    lemma_blank_end_at(s, c, seq![' ']);
    lemma_at_index(s, e, seq![' ', '{'], 0);
    lemma_at_index(s, e, seq![' ', '{'], 1);
    lemma_word_end_at(s, d, name);
    assert(seq![' ', '{'] =~= seq![' '] + seq!['{']);
    lemma_at_split(s, e, seq![' '], seq!['{']);
    lemma_blank_end_at(s, e, seq![' ']);
    lemma_columns_no_brace(t.fields);
    assert(no_brace(seq!['\n']));
    lemma_no_brace_concat(seq!['\n'], cols);
    assert(seq!['\n'] + cols + seq!['}'] =~= (seq!['\n'] + cols) + seq!['}']);
    lemma_close_brace_at(s, f + 1, seq!['\n'] + cols);
    let close = f + 1 + 1 + cols.len();
    lemma_at_index(s, close + 1, seq![';', '\n'], 0);
    lemma_field_list_at(s, f + 1, t.fields);
    assert(s.subrange(d, e) == name);
}

proof fn lemma_decode_columns(fs: Seq<FieldModel>)
    requires
        forall|k: int| 0 <= k < fs.len() ==> column_ok(#[trigger] fs[k]),
        forall|j: int, k: int| 0 <= j < k < fs.len() ==> fs[j].name != fs[k].name,
    ensures
        decode_fields(fs.map_values(|f: FieldModel| column_syntax(f))) == Some(
            fs.map_values(|f: FieldModel| column_raw(f)),
        ),
    decreases fs.len(),
{
    if fs.len() > 0 {
        let syns = fs.map_values(|f: FieldModel| column_syntax(f));
        let prev = fs.drop_last();
        assert(syns.drop_last() =~= prev.map_values(|f: FieldModel| column_syntax(f)));
        assert forall|k: int| 0 <= k < prev.len() implies column_ok(#[trigger] prev[k]) by {
            assert(prev[k] == fs[k]);
        }
        lemma_decode_columns(prev);
        let f = fs.last();
        assert(column_ok(f));
        lemma_decode_format(f.datatype);
        assert(decode_field(syns.last()) == Some(column_raw(f)));
        let pr = prev.map_values(|f: FieldModel| column_raw(f));
        assert(!(exists|k: int| 0 <= k < pr.len() && pr[k].name == column_raw(f).name)) by {
            if exists|k: int| 0 <= k < pr.len() && pr[k].name == column_raw(f).name {
                let k = choose|k: int| 0 <= k < pr.len() && pr[k].name == column_raw(f).name;
                assert(fs[k].name != fs[fs.len() - 1].name);
            }
        }
        assert(upsert_field(pr, column_raw(f)) =~= fs.map_values(|f: FieldModel| column_raw(f)));
    }
}

proof fn lemma_find_field_absent(fs: Seq<FieldModel>, name: Seq<char>)
    requires
        forall|k: int| 0 <= k < fs.len() ==> (#[trigger] fs[k]).name != name,
    ensures
        find_field(fs, name) is None,
    decreases fs.len(),
{
    if fs.len() > 0 {
        assert forall|k: int| 0 <= k < fs.drop_first().len() implies (#[trigger] fs.drop_first()[k]).name != name by {
            assert(fs.drop_first()[k] == fs[k + 1]);
        }
        lemma_find_field_absent(fs.drop_first(), name);
    }
}

proof fn lemma_resolve_columns(tname: Seq<char>, fs: Seq<FieldModel>, c: Seq<TableModel>)
    requires
        forall|k: int| 0 <= k < fs.len() ==> column_ok(#[trigger] fs[k]),
        forall|j: int, k: int| 0 <= j < k < fs.len() ==> fs[j].name != fs[k].name,
    ensures
        resolve_fields(tname, fs.map_values(|f: FieldModel| column_raw(f)), c) == Ok::<
            Seq<FieldModel>,
            crate::error::ErrorModel,
        >(fs),
    decreases fs.len(),
{
    if fs.len() > 0 {
        let raws = fs.map_values(|f: FieldModel| column_raw(f));
        let prev = fs.drop_last();
        assert(raws.drop_last() =~= prev.map_values(|f: FieldModel| column_raw(f)));
        assert forall|k: int| 0 <= k < prev.len() implies column_ok(#[trigger] prev[k]) by {
            assert(prev[k] == fs[k]);
        }
        lemma_resolve_columns(tname, prev, c);
        let f = fs.last();
        assert(column_ok(f));
        assert(raws.last() == column_raw(f));
        let col = FieldModel { name: f.name, datatype: f.datatype, reference: None };
        assert(col == f);
        assert(new_columns(tname, column_raw(f), c) == Ok::<Seq<FieldModel>, crate::error::ErrorModel>(seq![f]));
        assert forall|k: int| 0 <= k < prev.len() implies (#[trigger] prev[k]).name != f.name by {
            assert(prev[k] == fs[k]);
        }
        lemma_find_field_absent(prev, f.name);
        assert(seq![f].drop_last() =~= Seq::<FieldModel>::empty());
        assert(add_columns(tname, prev, Seq::<FieldModel>::empty()) == Ok::<Seq<FieldModel>, crate::error::ErrorModel>(prev));
        assert(add_columns(tname, prev, seq![f]) == Ok::<Seq<FieldModel>, crate::error::ErrorModel>(prev.push(f)));
        assert(prev.push(f) =~= fs);
    } else {
        assert(fs =~= Seq::<FieldModel>::empty());
    }
}

proof fn lemma_no_fk_targets(fs: Seq<FieldModel>)
    ensures
        fk_targets(fs.map_values(|f: FieldModel| column_raw(f))) =~= Seq::<Seq<char>>::empty(),
    decreases fs.len(),
{
    if fs.len() > 0 {
        let raws = fs.map_values(|f: FieldModel| column_raw(f));
        assert(raws.drop_last() =~= fs.drop_last().map_values(|f: FieldModel| column_raw(f)));
        lemma_no_fk_targets(fs.drop_last());
        assert(fk_target(raws.last()) is None);
    }
}

proof fn lemma_tables_from_step(s: Seq<char>, i: int, acc: Seq<RawTableModel>, e: int, syn: TableSyntax, m: RawTableModel)
    requires
        0 <= i < s.len(),
        blank_end(s, i) < s.len(),
        table_syntax(s, blank_end(s, i)) == Some((e, syn)),
        decode_table(syn) == Some(m),
        i < e <= s.len(),
    ensures
        !declares(acc, m.name) ==> tables_from(s, i, acc) == tables_from(s, e, acc.push(m)),
{
}

proof fn lemma_tables_from_end(s: Seq<char>, i: int, acc: Seq<RawTableModel>)
    requires
        0 <= i,
        blank_end(s, i) >= s.len(),
    ensures
        tables_from(s, i, acc) == Ok::<Seq<RawTableModel>, crate::error::ErrorModel>(acc),
{
}

proof fn lemma_tsql_table_ends(t: TableModel)
    ensures
        tsql_table(t).len() >= 2,
        !is_blank(tsql_table(t)[0]),
        tsql_table(t)[tsql_table(t).len() - 1] == '\n',
{
    reveal_strlit("table ");
    reveal_strlit("};\n");
    reveal_strlit("@primary_key(");
    let s = tsql_table(t);
    if t.primary_key.len() == 0 {
        assert(s[0] == 't');
    } else {
        assert(s[0] == '@');
    }
}

/// The declaration that the TSQL text of a table reads back as.
pub open spec fn read_back(t: TableModel) -> RawTableModel {
    RawTableModel {
        name: t.name,
        primary_key: t.primary_key,
        fields: t.fields.map_values(|f: FieldModel| column_raw(f)),
    }
}

/// The TSQL of the tables, first to last.
pub open spec fn tsql_front(ts: Seq<TableModel>) -> Seq<char>
    decreases ts.len(),
{
    if ts.len() == 0 {
        seq![]
    } else {
        tsql_table(ts[0]) + tsql_front(ts.drop_first())
    }
}

proof fn lemma_tsql_front_push(ts: Seq<TableModel>, t: TableModel)
    ensures
        tsql_front(ts.push(t)) == tsql_front(ts) + tsql_table(t),
    decreases ts.len(),
{
    if ts.len() == 0 {
        assert(ts.push(t).drop_first() =~= Seq::<TableModel>::empty());
        assert(ts.push(t)[0] == t);
        assert(tsql_front(ts.push(t).drop_first()) == Seq::<char>::empty());
        assert(tsql_front(ts.push(t)) == tsql_table(t) + Seq::<char>::empty());
        assert(tsql_front(ts) == Seq::<char>::empty());
        assert(tsql_front(ts.push(t)) =~= tsql_front(ts) + tsql_table(t));
    } else {
        assert(ts.push(t).drop_first() =~= ts.drop_first().push(t));
        assert(ts.push(t)[0] == ts[0]);
        lemma_tsql_front_push(ts.drop_first(), t);
        assert(tsql_front(ts.push(t)) == tsql_table(ts[0]) + tsql_front(ts.drop_first().push(t)));
        assert(tsql_front(ts) == tsql_table(ts[0]) + tsql_front(ts.drop_first()));
        assert(tsql_front(ts.push(t)) =~= tsql_front(ts) + tsql_table(t));
    }
}

proof fn lemma_tsql_collection_front(c: Seq<TableModel>)
    ensures
        tsql_collection(c) == tsql_front(c),
    decreases c.len(),
{
    if c.len() > 0 {
        lemma_tsql_collection_front(c.drop_last());
        lemma_tsql_front_push(c.drop_last(), c.last());
        assert(c.drop_last().push(c.last()) =~= c);
    }
}

proof fn lemma_tables_from_front(s: Seq<char>, p: int, acc: Seq<RawTableModel>, ts: Seq<TableModel>)
    requires
        0 <= p <= blank_end(s, p),
        at(s, blank_end(s, p), tsql_front(ts)),
        blank_end(s, p) + tsql_front(ts).len() == s.len(),
        forall|k: int| 0 <= k < ts.len() ==> table_ok(#[trigger] ts[k]),
        distinct_names(ts),
        forall|j: int, k: int| 0 <= j < acc.len() && 0 <= k < ts.len() ==> acc[j].name != ts[k].name,
    ensures
        tables_from(s, p, acc) == Ok::<Seq<RawTableModel>, crate::error::ErrorModel>(
            acc + ts.map_values(|t: TableModel| read_back(t)),
        ),
    decreases ts.len(),
{
    let q = blank_end(s, p);
    if ts.len() == 0 {
        assert(q == s.len());
        lemma_tables_from_end(s, p, acc);
        assert(acc + ts.map_values(|t: TableModel| read_back(t)) =~= acc);
    } else {
        let t0 = ts[0];
        let rest = ts.drop_first();
        let t0s = tsql_table(t0);
        assert(table_ok(t0));
        lemma_at_split(s, q, t0s, tsql_front(rest));
        lemma_table_at(s, q, t0);
        lemma_decode_columns(t0.fields);
        lemma_tsql_table_ends(t0);
        let e = q + t0s.len() - 1;
        let syn = TableSyntax {
            primary_key: t0.primary_key,
            name: t0.name,
            fields: t0.fields.map_values(|f: FieldModel| column_syntax(f)),
        };
        assert(decode_table(syn) == Some(read_back(t0)));
        lemma_tables_from_step(s, p, acc, e, syn, read_back(t0));
        let acc2 = acc.push(read_back(t0));
        assert(!(exists|k: int| 0 <= k < acc.len() && acc[k].name == read_back(t0).name)) by {
            if exists|k: int| 0 <= k < acc.len() && acc[k].name == read_back(t0).name {
                let k = choose|k: int| 0 <= k < acc.len() && acc[k].name == read_back(t0).name;
                assert(acc[k].name != ts[0].name);
            }
        }
        // the line break that ends the table, then the next table or the end
        let q2 = q + t0s.len();
        lemma_at_index(s, q, t0s, t0s.len() - 1);
        if rest.len() > 0 {
            lemma_tsql_table_ends(rest[0]);
            assert(tsql_front(rest) == tsql_table(rest[0]) + tsql_front(rest.drop_first()));
            lemma_at_index(s, q2, tsql_front(rest), 0);
            assert(!is_blank(s[q2]));
        }
        assert(blank_end(s, q2) == q2);
        assert(blank_end(s, e) == q2);
        assert forall|k: int| 0 <= k < rest.len() implies table_ok(#[trigger] rest[k]) by {
            assert(rest[k] == ts[k + 1]);
        }
        assert forall|j: int, k: int| 0 <= j < acc2.len() && 0 <= k < rest.len() implies acc2[j].name
            != rest[k].name by {
            assert(rest[k] == ts[k + 1]);
            if j < acc.len() {
                assert(acc2[j] == acc[j]);
            } else {
                assert(acc2[j] == read_back(t0));
            }
        }
        assert(distinct_names(rest)) by {
            assert forall|j: int, k: int| 0 <= j < k < rest.len() implies rest[j].name != rest[k].name by {
                assert(rest[j] == ts[j + 1] && rest[k] == ts[k + 1]);
            }
        }
        lemma_tables_from_front(s, e, acc2, rest);
        assert(acc2 + rest.map_values(|t: TableModel| read_back(t)) =~= acc + ts.map_values(
            |t: TableModel| read_back(t),
        ));
    }
}

proof fn lemma_sort_sorted(c: Seq<TableModel>)
    requires
        ordered_by_name(c),
    ensures
        sort_raw(c.map_values(|t: TableModel| read_back(t))) == c.map_values(|t: TableModel| read_back(t)),
    decreases c.len(),
{
    let raws = c.map_values(|t: TableModel| read_back(t));
    if c.len() > 0 {
        let prev = c.drop_last();
        assert(raws.drop_last() =~= prev.map_values(|t: TableModel| read_back(t)));
        assert(ordered_by_name(prev)) by {
            assert forall|j: int, k: int| 0 <= j < k < prev.len() implies !crate::resolve::name_lt(prev[k].name, prev[j].name) by {
                assert(prev[j] == c[j] && prev[k] == c[k]);
            }
        }
        lemma_sort_sorted(prev);
        let q = raws.drop_last();
        assert forall|j: int| 0 <= j < q.len() implies !crate::resolve::name_lt(raws.last().name, #[trigger] q[j].name) by {
            assert(q[j].name == c[j].name);
            assert(raws.last().name == c[c.len() - 1].name);
        }
        crate::resolve::lemma_insert_raw_at(q, raws.last(), q.len() as int);
        assert(q.insert(q.len() as int, raws.last()) =~= raws);
    } else {
        assert(raws =~= Seq::<RawTableModel>::empty());
    }
}

proof fn lemma_none_unresolved(ts: Seq<TableModel>, names: Seq<Seq<char>>)
    ensures
        first_unresolved(ts.map_values(|t: TableModel| read_back(t)), names) is None,
    decreases ts.len(),
{
    if ts.len() > 0 {
        let raws = ts.map_values(|t: TableModel| read_back(t));
        lemma_no_fk_targets(ts[0].fields);
        assert(raws[0] == read_back(ts[0]));
        assert(raws.drop_first() =~= ts.drop_first().map_values(|t: TableModel| read_back(t)));
        lemma_none_unresolved(ts.drop_first(), names);
    }
}

proof fn lemma_order_no_refs(ts: Seq<TableModel>, order: Seq<RawTableModel>)
    ensures
        order_tables(ts.map_values(|t: TableModel| read_back(t)), order, 0) == Ok::<
            Seq<RawTableModel>,
            crate::error::ErrorModel,
        >(order + ts.map_values(|t: TableModel| read_back(t))),
    decreases ts.len(),
{
    let raws = ts.map_values(|t: TableModel| read_back(t));
    if ts.len() == 0 {
        assert(order + raws =~= order);
    } else {
        lemma_no_fk_targets(ts[0].fields);
        assert(raws[0] == read_back(ts[0]));
        assert(crate::resolve::all_in(fk_targets(raws[0].fields), raw_names(order)));
        assert(raws.drop_first() =~= ts.drop_first().map_values(|t: TableModel| read_back(t)));
        lemma_order_no_refs(ts.drop_first(), order.push(raws[0]));
        assert(order.push(raws[0]) + raws.drop_first() =~= order + raws);
    }
}

proof fn lemma_resolve_sorted(c: Seq<TableModel>, k: int)
    requires
        0 <= k <= c.len(),
        forall|i: int| 0 <= i < c.len() ==> table_ok(#[trigger] c[i]),
        ordered_by_name(c),
    ensures
        resolve_in_order(c.subrange(k, c.len() as int).map_values(|t: TableModel| read_back(t)), c.subrange(0, k))
            == Ok::<Seq<TableModel>, crate::error::ErrorModel>(c),
    decreases c.len() - k,
{
    let rest = c.subrange(k, c.len() as int);
    let raws = rest.map_values(|t: TableModel| read_back(t));
    if k == c.len() {
        assert(raws =~= Seq::<RawTableModel>::empty());
        assert(c.subrange(0, k) =~= c);
    } else {
        let t = c[k];
        assert(table_ok(t));
        assert(raws[0] == read_back(t));
        lemma_resolve_columns(t.name, t.fields, c.subrange(0, k));
        assert(resolve_table(read_back(t), c.subrange(0, k)) == Ok::<TableModel, crate::error::ErrorModel>(t));
        let acc = c.subrange(0, k);
        assert forall|j: int| 0 <= j < acc.len() implies !crate::resolve::name_lt(t.name, #[trigger] acc[j].name) by {
            assert(acc[j] == c[j]);
        }
        crate::resolve::lemma_insert_table_at(acc, t, k);
        assert(acc.insert(k, t) =~= c.subrange(0, k + 1));
        assert(raws.drop_first() =~= c.subrange(k + 1, c.len() as int).map_values(|t: TableModel| read_back(t)));
        lemma_resolve_sorted(c, k + 1);
    }
}

proof fn lemma_collection_reads_back(c: Seq<TableModel>)
    requires
        forall|i: int| 0 <= i < c.len() ==> table_ok(#[trigger] c[i]),
        distinct_names(c),
    ensures
        raw_tables_spec(tsql_collection(c)) == Ok::<Seq<RawTableModel>, crate::error::ErrorModel>(
            c.map_values(|t: TableModel| read_back(t)),
        ),
{
    let s = tsql_collection(c);
    lemma_tsql_collection_front(c);
    let raws = c.map_values(|t: TableModel| read_back(t));
    if c.len() > 0 {
        lemma_tsql_table_ends(c[0]);
        assert(tsql_front(c) == tsql_table(c[0]) + tsql_front(c.drop_first()));
        assert(s[0] == tsql_table(c[0])[0]);
    }
    assert(blank_end(s, 0) == 0);
    assert(at(s, 0, s)) by {
        assert(s.subrange(0, s.len() as int) =~= s);
    }
    lemma_tables_from_front(s, 0, seq![], c);
    assert(Seq::<RawTableModel>::empty() + raws =~= raws);
}

proof fn lemma_collection_resolves_back(c: Seq<TableModel>)
    requires
        forall|i: int| 0 <= i < c.len() ==> table_ok(#[trigger] c[i]),
        ordered_by_name(c),
    ensures
        crate::resolve::resolve_spec(c.map_values(|t: TableModel| read_back(t))) == Ok::<
            Seq<TableModel>,
            crate::error::ErrorModel,
        >(c),
{
    let raws = c.map_values(|t: TableModel| read_back(t));
    assert(crate::resolve::infer_targets(raws) =~= raws) by {
        assert forall|k: int| 0 <= k < raws.len() implies #[trigger] crate::resolve::infer_targets(raws)[k] == raws[k] by {
            let t = raws[k];
            assert(t.fields.map_values(|f: RawFieldModel| crate::resolve::infer_field(f, t.name, raw_names(raws)))
                =~= t.fields);
        }
    }
    lemma_sort_sorted(c);
    lemma_none_unresolved(c, raw_names(raws));
    lemma_order_no_refs(c, seq![]);
    assert(Seq::<RawTableModel>::empty() + raws =~= raws);
    lemma_resolve_sorted(c, 0);
    assert(c.subrange(0, c.len() as int) =~= c);
    assert(c.subrange(0, 0) =~= Seq::<TableModel>::empty());
}

/// Round trip: the TSQL text that the library writes for a collection
/// compiles back to exactly that collection, where its tables are as
/// `table_ok` says (among the tables that a text compiles to, those with a
/// column and no `bool` or referring column), with distinct names, ordered by
/// name (as every compiled collection is).
pub proof fn lemma_tsql_round_trip(c: Seq<TableModel>)
    requires
        forall|i: int| 0 <= i < c.len() ==> table_ok(#[trigger] c[i]),
        distinct_names(c),
        ordered_by_name(c),
    ensures
        compile_spec(tsql_collection(c)) == Ok::<Seq<TableModel>, crate::error::ErrorModel>(c),
{
    lemma_collection_reads_back(c);
    lemma_collection_resolves_back(c);
}

proof fn lemma_word_span(s: Seq<char>, i: int)
    requires
        0 <= i <= s.len(),
    ensures
        i <= word_end(s, i) <= s.len(),
        forall|k: int| i <= k < word_end(s, i) ==> is_word_char(#[trigger] s[k]),
    decreases s.len() - i,
{
    if i < s.len() && is_word_char(s[i]) {
        lemma_word_span(s, i + 1);
    }
}

proof fn lemma_word_identifier(s: Seq<char>, i: int)
    requires
        0 <= i < word_end(s, i),
    ensures
        identifier(s.subrange(i, word_end(s, i))),
{
    if i > s.len() {
        assert(word_end(s, i) == i);
    }
    lemma_word_span(s, i);
    let w = s.subrange(i, word_end(s, i));
    assert forall|k: int| 0 <= k < w.len() implies is_word_char(#[trigger] w[k]) by {
        assert(w[k] == s[i + k]);
    }
}

/// Every name in the list is an identifier.
pub open spec fn all_identifiers(xs: Seq<Seq<char>>) -> bool {
    forall|k: int| 0 <= k < xs.len() ==> identifier(#[trigger] xs[k])
}

proof fn lemma_list_tail_words_ok(s: Seq<char>, e: int)
    ensures
        all_identifiers(list_tail(s, e, false).1),
    decreases s.len() - e,
{
    match sep_end(s, e) {
        Some(k) => {
            let e2 = item_end(s, k, false);
            if k < e2 && e < e2 <= s.len() {
                lemma_list_tail_words_ok(s, e2);
                if k >= 0 {
                    lemma_word_identifier(s, k);
                } else {
                    assert(word_end(s, k) == k);
                }
                let rest = list_tail(s, e2, false).1;
                let all = seq![s.subrange(k, e2)] + rest;
                assert forall|m: int| 0 <= m < all.len() implies identifier(#[trigger] all[m]) by {
                    if m > 0 {
                        assert(all[m] == rest[m - 1]);
                    }
                }
            }
        },
        None => {},
    }
}

proof fn lemma_tuple_words_ok(s: Seq<char>, i: int)
    ensures
        tuple_list(s, i, false) matches Some((_, xs)) ==> all_identifiers(xs),
{
    if 0 <= i < s.len() && s[i] == '(' {
        let e = item_end(s, i + 1, false);
        if i + 1 < e {
            lemma_word_identifier(s, i + 1);
            lemma_list_tail_words_ok(s, e);
            let rest = list_tail(s, e, false).1;
            let all = seq![s.subrange(i + 1, e)] + rest;
            assert forall|m: int| 0 <= m < all.len() implies identifier(#[trigger] all[m]) by {
                if m > 0 {
                    assert(all[m] == rest[m - 1]);
                }
            }
        }
    }
}

proof fn lemma_field_syntax_ok(s: Seq<char>, i: int)
    ensures
        field_syntax(s, i) matches Some((_, f)) ==> identifier(f.name),
{
    if let Some((n, f)) = field_syntax(s, i) {
        let n0 = f.name;
        let a = blank_end(s, i);
        let fk = lit_at(s, a, "@foreign_key()"@);
        let b = blank_end(s, if fk { a + "@foreign_key()"@.len() } else { a });
        let t = word_end(s, b);
        let p = match tuple_list(s, t, true) {
            Some((p, xs)) => p,
            None => t,
        };
        let m0 = blank_end(s, p);
        lemma_word_identifier(s, m0);
    }
}

proof fn lemma_field_tail_ok(s: Seq<char>, e: int)
    ensures
        forall|k: int| 0 <= k < field_tail(s, e).1.len() ==> identifier((#[trigger] field_tail(s, e).1[k]).name),
    decreases s.len() - e,
{
    if 0 <= e < s.len() && s[e] == ',' {
        lemma_field_syntax_ok(s, e + 1);
        match field_syntax(s, e + 1) {
            Some((e2, f)) => if e < e2 <= s.len() {
                lemma_field_tail_ok(s, e2);
                let rest = field_tail(s, e2).1;
                let all = seq![f] + rest;
                assert forall|k: int| 0 <= k < all.len() implies identifier((#[trigger] all[k]).name) by {
                    if k > 0 {
                        assert(all[k] == rest[k - 1]);
                    }
                }
            },
            None => {},
        }
    }
}

/// What the parser gives of a table: identifiers for all names.
pub open spec fn raw_names_ok(r: RawTableModel) -> bool {
    &&& identifier(r.name)
    &&& all_identifiers(r.primary_key)
    &&& forall|k: int| 0 <= k < r.fields.len() ==> identifier((#[trigger] r.fields[k]).name)
}

proof fn lemma_table_syntax_ok(s: Seq<char>, i: int)
    ensures
        table_syntax(s, i) matches Some((_, t)) ==> identifier(t.name) && all_identifiers(t.primary_key)
            && forall|k: int| 0 <= k < t.fields.len() ==> identifier((#[trigger] t.fields[k]).name),
{
    if let Some((_, t)) = table_syntax(s, i) {
        let (a, pk) = table_extra_syntax(s, i);
        if lit_at(s, i, "@primary_key"@) {
            lemma_tuple_words_ok(s, i + "@primary_key"@.len());
        }
        let b = blank_end(s, a);
        let c = b + "table"@.len();
        let d = blank_end(s, c);
        lemma_word_identifier(s, d);
        let e = word_end(s, d);
        let f = blank_end(s, e);
        let fi = f + 1;
        lemma_field_syntax_ok(s, fi);
        match field_syntax(s, fi) {
            Some((e0, f0)) => {
                lemma_field_tail_ok(s, e0);
                let rest = field_tail(s, e0).1;
                let all = seq![f0] + rest;
                assert forall|k: int| 0 <= k < all.len() implies identifier((#[trigger] all[k]).name) by {
                    if k > 0 {
                        assert(all[k] == rest[k - 1]);
                    }
                }
            },
            None => {},
        }
    }
}

proof fn lemma_decode_fields_ok(fs: Seq<FieldSyntax>)
    requires
        forall|k: int| 0 <= k < fs.len() ==> identifier((#[trigger] fs[k]).name),
    ensures
        decode_fields(fs) matches Some(raws) ==> forall|k: int|
            0 <= k < raws.len() ==> identifier((#[trigger] raws[k]).name),
    decreases fs.len(),
{
    if fs.len() > 0 {
        let prev = fs.drop_last();
        assert forall|k: int| 0 <= k < prev.len() implies identifier((#[trigger] prev[k]).name) by {
            assert(prev[k] == fs[k]);
        }
        lemma_decode_fields_ok(prev);
        match (decode_fields(prev), decode_field(fs.last())) {
            (Some(pr), Some(m)) => {
                assert(identifier(m.name));
                let u = upsert_field(pr, m);
                assert forall|k: int| 0 <= k < u.len() implies identifier((#[trigger] u[k]).name) by {
                    if exists|j: int| 0 <= j < pr.len() && pr[j].name == m.name {
                        let c = choose|j: int| 0 <= j < pr.len() && pr[j].name == m.name;
                        if k != c {
                            assert(u[k] == pr[k]);
                        }
                    } else if k < pr.len() {
                        assert(u[k] == pr[k]);
                    }
                }
            },
            _ => {},
        }
    }
}

proof fn lemma_tables_from_ok(s: Seq<char>, i: int, acc: Seq<RawTableModel>)
    requires
        forall|k: int| 0 <= k < acc.len() ==> raw_names_ok(#[trigger] acc[k]),
    ensures
        tables_from(s, i, acc) matches Ok(r) ==> forall|k: int| 0 <= k < r.len() ==> raw_names_ok(#[trigger] r[k]),
    decreases s.len() - i,
{
    let j = blank_end(s, i);
    if j >= s.len() || i < 0 {
    } else {
        lemma_table_syntax_ok(s, j);
        match table_syntax(s, j) {
            None => {},
            Some((e, t)) => match decode_table(t) {
                None => {},
                Some(m) => {
                    if i < e <= s.len() {
                        lemma_decode_fields_ok(t.fields);
                        assert(raw_names_ok(m));
                        let u = acc.push(m);
                        assert forall|k: int| 0 <= k < u.len() implies raw_names_ok(#[trigger] u[k]) by {
                            if k < acc.len() {
                                assert(u[k] == acc[k]);
                            }
                        }
                        lemma_tables_from_ok(s, e, u);
                    }
                },
            },
        }
    }
}

proof fn lemma_order_tables_members(queue: Seq<RawTableModel>, order: Seq<RawTableModel>, stall: nat, p: spec_fn(RawTableModel) -> bool)
    requires
        forall|k: int| 0 <= k < queue.len() ==> p(#[trigger] queue[k]),
        forall|k: int| 0 <= k < order.len() ==> p(#[trigger] order[k]),
    ensures
        order_tables(queue, order, stall) matches Ok(res) ==> forall|k: int| 0 <= k < res.len() ==> p(#[trigger] res[k]),
    decreases queue.len(), queue.len() - stall,
{
    if queue.len() == 0 {
    } else if stall >= queue.len() {
    } else {
        let t = queue[0];
        let rest = queue.drop_first();
        assert forall|k: int| 0 <= k < rest.len() implies p(#[trigger] rest[k]) by {
            assert(rest[k] == queue[k + 1]);
        }
        if crate::resolve::all_in(fk_targets(t.fields), raw_names(order)) {
            let o2 = order.push(t);
            assert forall|k: int| 0 <= k < o2.len() implies p(#[trigger] o2[k]) by {
                if k < order.len() {
                    assert(o2[k] == order[k]);
                }
            }
            lemma_order_tables_members(rest, o2, 0, p);
        } else {
            let q2 = rest.push(t);
            assert forall|k: int| 0 <= k < q2.len() implies p(#[trigger] q2[k]) by {
                if k < rest.len() {
                    assert(q2[k] == rest[k]);
                }
            }
            lemma_order_tables_members(q2, order, stall + 1, p);
        }
    }
}

/// What holds of every resolved table of a compiled text: identifiers for
/// its name and key, distinct column names, a key whose names name columns,
/// and an identifier for every column that refers to no table.
pub open spec fn resolved_ok(t: TableModel) -> bool {
    &&& identifier(t.name)
    &&& all_identifiers(t.primary_key)
    &&& forall|j: int, k: int| 0 <= j < k < t.fields.len() ==> t.fields[j].name != t.fields[k].name
    &&& missing_pk(t.fields, t.primary_key) is None
    &&& forall|k: int| 0 <= k < t.fields.len() && (#[trigger] t.fields[k]).reference is None ==> identifier(t.fields[k].name)
}

/// Columns with distinct names, and an identifier for each that refers to no table.
pub open spec fn columns_ok(fs: Seq<FieldModel>) -> bool {
    &&& forall|j: int, k: int| 0 <= j < k < fs.len() ==> fs[j].name != fs[k].name
    &&& forall|k: int| 0 <= k < fs.len() && (#[trigger] fs[k]).reference is None ==> identifier(fs[k].name)
}

proof fn lemma_find_field_none_names(fs: Seq<FieldModel>, name: Seq<char>)
    requires
        find_field(fs, name) is None,
    ensures
        forall|k: int| 0 <= k < fs.len() ==> (#[trigger] fs[k]).name != name,
    decreases fs.len(),
{
    if fs.len() > 0 {
        lemma_find_field_none_names(fs.drop_first(), name);
        assert forall|k: int| 0 <= k < fs.len() implies (#[trigger] fs[k]).name != name by {
            if k > 0 {
                assert(fs[k] == fs.drop_first()[k - 1]);
            }
        }
    }
}

proof fn lemma_add_columns_ok2(tname: Seq<char>, acc: Seq<FieldModel>, cols: Seq<FieldModel>)
    requires
        columns_ok(acc),
        forall|k: int| 0 <= k < cols.len() && (#[trigger] cols[k]).reference is None ==> identifier(cols[k].name),
    ensures
        add_columns(tname, acc, cols) matches Ok(res) ==> columns_ok(res),
    decreases cols.len(),
{
    if cols.len() > 0 {
        let pc = cols.drop_last();
        assert forall|k: int| 0 <= k < pc.len() && (#[trigger] pc[k]).reference is None implies identifier(pc[k].name) by {
            assert(pc[k] == cols[k]);
        }
        lemma_add_columns_ok2(tname, acc, pc);
        match add_columns(tname, acc, pc) {
            Ok(prev) => {
                if find_field(prev, cols.last().name) is None {
                    lemma_find_field_none_names(prev, cols.last().name);
                    let r = prev.push(cols.last());
                    assert forall|j: int, k: int| 0 <= j < k < r.len() implies r[j].name != r[k].name by {
                        assert(r[j] == prev[j]);
                        if k < prev.len() {
                            assert(r[k] == prev[k]);
                        }
                    }
                    assert forall|k: int| 0 <= k < r.len() && (#[trigger] r[k]).reference is None implies identifier(r[k].name) by {
                        if k < prev.len() {
                            assert(r[k] == prev[k]);
                        } else {
                            assert(r[k] == cols[cols.len() - 1]);
                        }
                    }
                }
            },
            Err(_) => {},
        }
    }
}

proof fn lemma_expand_keys_refs(prefix: Seq<char>, tname: Seq<char>, target: TableModel, keys: Seq<Seq<char>>)
    ensures
        expand_keys(prefix, tname, target, keys) matches Ok(cols) ==> forall|k: int|
            0 <= k < cols.len() ==> (#[trigger] cols[k]).reference is Some,
    decreases keys.len(),
{
    if keys.len() > 0 {
        lemma_expand_keys_refs(prefix, tname, target, keys.drop_last());
        if let (Ok(cols), Ok(prev)) = (
            expand_keys(prefix, tname, target, keys),
            expand_keys(prefix, tname, target, keys.drop_last()),
        ) {
            assert forall|k: int| 0 <= k < cols.len() implies (#[trigger] cols[k]).reference is Some by {
                if k < prev.len() {
                    assert(cols[k] == prev[k]);
                }
            }
        }
    }
}

proof fn lemma_resolve_fields_ok2(tname: Seq<char>, fs: Seq<RawFieldModel>, c: Seq<TableModel>)
    requires
        forall|k: int| 0 <= k < fs.len() ==> identifier((#[trigger] fs[k]).name),
    ensures
        resolve_fields(tname, fs, c) matches Ok(res) ==> columns_ok(res),
    decreases fs.len(),
{
    if fs.len() > 0 {
        let prev = fs.drop_last();
        assert forall|k: int| 0 <= k < prev.len() implies identifier((#[trigger] prev[k]).name) by {
            assert(prev[k] == fs[k]);
        }
        lemma_resolve_fields_ok2(tname, prev, c);
        let f = fs.last();
        assert(identifier(f.name));
        match (resolve_fields(tname, prev, c), new_columns(tname, f, c)) {
            (Ok(pr), Ok(cols)) => {
                if f.foreign_key {
                    match f.datatype {
                        RawTypeModel::ForeignKeyTable(t) => match find_table(c, t) {
                            Some(tm) => {
                                lemma_expand_keys_refs(f.name, t, tm, tm.primary_key);
                            },
                            None => {},
                        },
                        _ => {},
                    }
                }
                lemma_add_columns_ok2(tname, pr, cols);
            },
            _ => {},
        }
    } else {
        assert(columns_ok(Seq::<FieldModel>::empty()));
    }
}

proof fn lemma_resolve_in_order_ok(order: Seq<RawTableModel>, c: Seq<TableModel>)
    requires
        forall|k: int| 0 <= k < order.len() ==> raw_names_ok(#[trigger] order[k]),
        forall|k: int| 0 <= k < c.len() ==> resolved_ok(#[trigger] c[k]),
    ensures
        resolve_in_order(order, c) matches Ok(res) ==> forall|k: int| 0 <= k < res.len() ==> resolved_ok(#[trigger] res[k]),
    decreases order.len(),
{
    if order.len() > 0 {
        let r = order[0];
        assert(raw_names_ok(r));
        lemma_resolve_fields_ok2(r.name, r.fields, c);
        match resolve_table(r, c) {
            Ok(t) => {
                assert(resolved_ok(t));
                let rest = order.drop_first();
                assert forall|k: int| 0 <= k < rest.len() implies raw_names_ok(#[trigger] rest[k]) by {
                    assert(rest[k] == order[k + 1]);
                }
                let p = |x: TableModel| resolved_ok(x);
                assert forall|i: int| 0 <= i < c.len() implies p(#[trigger] c[i]) by {}
                crate::laws::lemma_insert_table_all_pub(c, t, p);
                let c2 = insert_table(c, t);
                assert forall|i: int| 0 <= i < c2.len() implies resolved_ok(#[trigger] c2[i]) by {
                    assert(p(c2[i]));
                }
                lemma_resolve_in_order_ok(rest, c2);
            },
            Err(_) => {},
        }
    }
}

/// Every table of a compiled text is as `resolved_ok` says.
proof fn lemma_compiled_tables_ok(x: Seq<char>)
    ensures
        compile_spec(x) matches Ok(c) ==> forall|k: int| 0 <= k < c.len() ==> resolved_ok(#[trigger] c[k]),
{
    lemma_tables_from_ok(x, 0, seq![]);
    match raw_tables_spec(x) {
        Ok(raw) => {
            let inferred = crate::resolve::infer_targets(raw);
            let queue = sort_raw(inferred);
            crate::laws::lemma_sort_raw_members(inferred);
            crate::laws::lemma_infer_names(raw);
            let p = |r: RawTableModel| raw_names_ok(r);
            assert forall|k: int| 0 <= k < queue.len() implies p(#[trigger] queue[k]) by {
                let m = choose|m: int| 0 <= m < inferred.len() && inferred[m] == queue[k];
                assert(raw_names_ok(raw[m]));
                let t = inferred[m];
                assert forall|j: int| 0 <= j < t.fields.len() implies identifier((#[trigger] t.fields[j]).name) by {
                    assert(t.fields[j].name == raw[m].fields[j].name);
                }
            }
            if first_unresolved(queue, raw_names(queue)) is None {
                lemma_order_tables_members(queue, seq![], 0, p);
                match order_tables(queue, seq![], 0) {
                    Ok(order) => {
                        assert forall|k: int| 0 <= k < order.len() implies raw_names_ok(#[trigger] order[k]) by {
                            assert(p(order[k]));
                        }
                        lemma_resolve_in_order_ok(order, seq![]);
                    },
                    Err(_) => {},
                }
            }
        },
        Err(_) => {},
    }
}

/// Round trip: where a text compiles to tables that each have a column and
/// have no `bool` column (written `boolean`) and no column that refers to a
/// table, the TSQL that the library writes for those tables compiles to the
/// same tables.
pub proof fn lemma_compiled_round_trip(x: Seq<char>)
    ensures
        compile_spec(x) matches Ok(c) ==> ((forall|i: int|
            0 <= i < c.len() ==> (#[trigger] c[i]).fields.len() > 0 && forall|k: int|
                0 <= k < c[i].fields.len() ==> (#[trigger] c[i].fields[k]).datatype != DataType::Bool
                    && c[i].fields[k].reference is None) ==> compile_spec(tsql_collection(c))
            == compile_spec(x)),
{
    if let Ok(c) = compile_spec(x) {
        if forall|i: int|
            0 <= i < c.len() ==> (#[trigger] c[i]).fields.len() > 0 && forall|k: int|
                0 <= k < c[i].fields.len() ==> (#[trigger] c[i].fields[k]).datatype != DataType::Bool
                    && c[i].fields[k].reference is None {
            lemma_compiled_tables_ok(x);
            lemma_compiled_names_distinct(x);
            lemma_compiled_tables_ordered(x);
            assert forall|i: int| 0 <= i < c.len() implies table_ok(#[trigger] c[i]) by {
                assert(resolved_ok(c[i]));
                assert forall|k: int| 0 <= k < c[i].fields.len() implies column_ok(#[trigger] c[i].fields[k]) by {
                    assert(c[i].fields[k].reference is None);
                }
            }
            lemma_tsql_round_trip(c);
        }
    }
}

} // verus!
