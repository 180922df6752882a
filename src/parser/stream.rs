use vstd::prelude::*;

use crate::error::{ErrorModel, TsqlError};
use crate::parser::grammar::{
    fields_view, parse_table_syntax, table_syntax, FieldSyntax, ParsedTable, RawParsedField,
    TableSyntax,
};
use crate::parser::lexer::{blank_end, skip_blanks, strings_view};
use crate::parser::types::{
    decode_spec, raw_fields_view, strs_view, FieldType, RawDataType, RawField,
    RawFieldModel, RawTable, RawTableModel,
};
use crate::types::{names_view, TableExtra};

verus! {

/// No two fields share a name.
pub open spec fn unique_field_names(fs: Seq<RawFieldModel>) -> bool {
    forall|j: int, k: int| 0 <= j < k < fs.len() ==> fs[j].name != fs[k].name
}

/// A field map with `f` entered under its name: it replaces a field of the same
/// name in place, or comes last.
pub open spec fn upsert_field(fs: Seq<RawFieldModel>, f: RawFieldModel) -> Seq<RawFieldModel> {
    if exists|k: int| 0 <= k < fs.len() && fs[k].name == f.name {
        fs.update(choose|k: int| 0 <= k < fs.len() && fs[k].name == f.name, f)
    } else {
        fs.push(f)
    }
}

/// No two tables share a name.
pub open spec fn unique_table_names(ts: Seq<RawTableModel>) -> bool {
    forall|j: int, k: int| 0 <= j < k < ts.len() ==> ts[j].name != ts[k].name
}

/// A table called `name` stands among `ts`.
pub open spec fn declares(ts: Seq<RawTableModel>, name: Seq<char>) -> bool {
    exists|k: int| 0 <= k < ts.len() && ts[k].name == name
}

/// A field as written, with its type decoded.
pub open spec fn decode_field(f: FieldSyntax) -> Option<RawFieldModel> {
    match decode_spec(f.kind, f.args) {
        Some(t) => Some(RawFieldModel { name: f.name, datatype: t, foreign_key: f.foreign_key }),
        None => None,
    }
}

/// The field map of a table: the fields decoded and entered in order.
pub open spec fn decode_fields(fs: Seq<FieldSyntax>) -> Option<Seq<RawFieldModel>>
    decreases fs.len(),
{
    if fs.len() == 0 {
        Some(seq![])
    } else {
        match decode_fields(fs.drop_last()) {
            Some(prev) => match decode_field(fs.last()) {
                Some(f) => Some(upsert_field(prev, f)),
                None => None,
            },
            None => None,
        }
    }
}

pub open spec fn decode_table(t: TableSyntax) -> Option<RawTableModel> {
    match decode_fields(t.fields) {
        Some(fs) => Some(RawTableModel { name: t.name, primary_key: t.primary_key, fields: fs }),
        None => None,
    }
}

/// The tables declared from position `i` on, entered into `acc` in order.
pub open spec fn tables_from(s: Seq<char>, i: int, acc: Seq<RawTableModel>) -> Result<
    Seq<RawTableModel>,
    ErrorModel,
>
    decreases s.len() - i,
{
    let j = blank_end(s, i);
    if j >= s.len() || i < 0 {
        Ok(acc)
    } else {
        match table_syntax(s, j) {
            None => Err(ErrorModel::Lex(j)),
            Some((e, t)) => match decode_table(t) {
                None => Err(ErrorModel::Decode(j)),
                Some(m) => if i < e <= s.len() {
                    if declares(acc, m.name) {
                        Err(ErrorModel::DuplicateTable(m.name))
                    } else {
                        tables_from(s, e, acc.push(m))
                    }
                } else {
                    Err(ErrorModel::Lex(j))
                },
            },
        }
    }
}

/// The raw tables that a text declares, in order of declaration; a name
/// declared twice is an error.
pub open spec fn raw_tables_spec(s: Seq<char>) -> Result<Seq<RawTableModel>, ErrorModel> {
    tables_from(s, 0, seq![])
}

pub open spec fn raw_tables_view(v: Seq<RawTable>) -> Seq<RawTableModel> {
    v.map_values(|t: RawTable| t@)
}

/// Enters `f` into the field map `fields`.
pub fn upsert_raw_field(fields: &mut Vec<FieldType>, f: FieldType)
    requires
        unique_field_names(raw_fields_view(old(fields)@)),
    ensures
        raw_fields_view(final(fields)@) == upsert_field(raw_fields_view(old(fields)@), f@),
        unique_field_names(raw_fields_view(final(fields)@)),
{
    let ghost fs = raw_fields_view(fields@);
    let name = match &f {
        FieldType::Real(rf) => rf.name.clone(),
        FieldType::Virtual((rf, _)) => rf.name.clone(),
    };
    assert(name@ == f@.name);
    let mut k: usize = 0;
    while k < fields.len()
        invariant
            k <= fields@.len(),
            fs == raw_fields_view(fields@),
            fs == raw_fields_view(old(fields)@),
            unique_field_names(fs),
            name@ == f@.name,
            forall|j: int| 0 <= j < k ==> fs[j].name != f@.name,
        decreases fields@.len() - k,
    {
        let same = match &fields[k] {
            FieldType::Real(rf) => rf.name == name,
            FieldType::Virtual((rf, _)) => rf.name == name,
        };
        if same {
            assert(fs[k as int].name == f@.name);
            let ghost c = choose|j: int| 0 <= j < fs.len() && fs[j].name == f@.name;
            assert(fs[c].name == f@.name);
            proof {
                if c < k {
                    assert(fs[c].name != fs[k as int].name);
                }
                if k < c {
                    assert(fs[k as int].name != fs[c].name);
                }
            }
            assert(c == k);
            let ghost fv = f@;
            fields.set(k, f);
            assert(raw_fields_view(fields@) =~= fs.update(k as int, fv));
            assert(exists|j: int| 0 <= j < fs.len() && fs[j].name == fv.name);
            assert(raw_fields_view(fields@) == upsert_field(fs, fv));
            return;
        }
        k = k + 1;
    }
    fields.push(f);
    assert(raw_fields_view(fields@) =~= fs.push(f@));
}

/// Whether a table called `name` stands among `tables`.
fn declares_table(tables: &Vec<RawTable>, name: &String) -> (r: bool)
    ensures
        r == declares(raw_tables_view(tables@), name@),
{
    let ghost ts = raw_tables_view(tables@);
    let mut k: usize = 0;
    while k < tables.len()
        invariant
            k <= tables@.len(),
            ts == raw_tables_view(tables@),
            forall|j: int| 0 <= j < k ==> ts[j].name != name@,
        decreases tables@.len() - k,
    {
        if tables[k].name == *name {
            assert(ts[k as int].name == name@);
            return true;
        }
        k = k + 1;
    }
    false
}

/// Decodes the type of a parsed field.
pub fn decode_parsed_field(f: RawParsedField) -> (r: Option<FieldType>)
    ensures
        r matches Some(ft) ==> decode_field(f@) == Some(ft@),
        r is None ==> decode_field(f@) is None,
{
    let mut args: Vec<&str> = Vec::new();
    let mut k: usize = 0;
    while k < f.field_type_arguments.len()
        invariant
            k <= f.field_type_arguments@.len(),
            strs_view(args@) == strings_view(f.field_type_arguments@).subrange(0, k as int),
        decreases f.field_type_arguments@.len() - k,
    {
        let a = f.field_type_arguments[k].as_str();
        let ghost before = args@;
        args.push(a);
        assert(strs_view(args@) =~= strs_view(before).push(a@));
        assert(strings_view(f.field_type_arguments@)[k as int] == a@);
        k = k + 1;
        assert(strs_view(args@) =~= strings_view(f.field_type_arguments@).subrange(0, k as int));
    }
    assert(strings_view(f.field_type_arguments@).subrange(0, k as int) =~= strings_view(
        f.field_type_arguments@,
    ));
    match RawDataType::parse(f.field_type.as_str(), args) {
        Some(datatype) => {
            let field = RawField { name: f.field_name, datatype };
            match f.field_extra {
                Some(extra) => Some(FieldType::Virtual((field, extra))),
                None => Some(FieldType::Real(field)),
            }
        },
        None => None,
    }
}

/// Decodes a parsed table into a raw table.
pub fn decode_parsed_table(t: ParsedTable) -> (r: Option<RawTable>)
    ensures
        r matches Some(rt) ==> decode_table(
            TableSyntax {
                primary_key: strings_view(t.primary_key@),
                name: t.name@,
                fields: fields_view(t.fields@),
            },
        ) == Some(rt@),
        r is None ==> decode_table(
            TableSyntax {
                primary_key: strings_view(t.primary_key@),
                name: t.name@,
                fields: fields_view(t.fields@),
            },
        ) is None,
{
    let ghost syn = fields_view(t.fields@);
    let mut fields: Vec<FieldType> = Vec::new();
    let mut parsed = t.fields;
    let ghost n = syn.len();
    let total = parsed.len();
    let mut k: usize = 0;
    while parsed.len() > 0
        invariant
            k + parsed@.len() == n,
            n == total,
            syn == fields_view(t.fields@),
            n == syn.len(),
            fields_view(parsed@) == syn.subrange(k as int, n as int),
            decode_fields(syn.subrange(0, k as int)) == Some(raw_fields_view(fields@)),
            unique_field_names(raw_fields_view(fields@)),
        decreases parsed@.len(),
    {
        let ghost before = parsed@;
        let f = parsed.remove(0);
        assert(f@ == fields_view(before)[0]);
        assert(f@ == syn[k as int]);
        assert forall|j: int| 0 <= j < parsed@.len() implies #[trigger] fields_view(parsed@)[j]
            == syn.subrange(k + 1, n as int)[j] by {
            assert(parsed@[j] == before[j + 1]);
            assert(fields_view(before)[j + 1] == syn.subrange(k as int, n as int)[j + 1]);
        }
        assert(fields_view(parsed@) =~= syn.subrange(k + 1, n as int));
        assert(syn.subrange(0, k + 1).drop_last() =~= syn.subrange(0, k as int));
        assert(syn.subrange(0, k + 1).last() == syn[k as int]);
        match decode_parsed_field(f) {
            Some(ft) => {
                upsert_raw_field(&mut fields, ft);
            },
            None => {
                proof {
                    lemma_decode_fields_none(syn, k as int + 1);
                }
                return None;
            },
        }
        k = k + 1;
    }
    assert(syn.subrange(0, k as int) =~= syn);
    assert(names_view(t.primary_key@) == strings_view(t.primary_key@));
    Some(RawTable { extra: TableExtra::new_with_pk(t.primary_key), name: t.name, fields })
}

/// Once a prefix of the fields fails to decode, so do all of them.
proof fn lemma_decode_fields_none(fs: Seq<FieldSyntax>, k: int)
    requires
        0 <= k <= fs.len(),
        decode_fields(fs.subrange(0, k)) is None,
    ensures
        decode_fields(fs) is None,
    decreases fs.len() - k,
{
    if k < fs.len() {
        assert(fs.subrange(0, k + 1).drop_last() =~= fs.subrange(0, k));
        lemma_decode_fields_none(fs, k + 1);
    } else {
        assert(fs.subrange(0, k) =~= fs);
    }
}

/// Parses one table declaration at `i` and decodes its field types.
pub fn parse(s: &Vec<char>, i: usize) -> (r: Result<(usize, RawTable), TsqlError>)
    requires
        i <= s@.len(),
    ensures
        r matches Ok((e, t)) ==> table_syntax(s@, i as int) matches Some((e0, syn)) && e0 == e
            && decode_table(syn) == Some(t@) && e <= s@.len(),
        r matches Err(err) ==> (err@ == ErrorModel::Lex(i as int) && table_syntax(s@, i as int) is None)
            || (err@ == ErrorModel::Decode(i as int) && (table_syntax(s@, i as int) matches Some((_, syn))
            && decode_table(syn) is None)),
{
    match parse_table_syntax(s, i) {
        None => Err(TsqlError::LexError(i)),
        Some(t) => {
            let end = t.end;
            match decode_parsed_table(t) {
                Some(rt) => Ok((end, rt)),
                None => Err(TsqlError::DataTypeDecodeError(i)),
            }
        },
    }
}

/// Parses all table declarations of a text.
pub fn parse_raw_tables(s: &Vec<char>) -> (r: Result<Vec<RawTable>, TsqlError>)
    ensures
        r matches Ok(ts) ==> raw_tables_spec(s@) == Ok::<Seq<RawTableModel>, ErrorModel>(
            raw_tables_view(ts@),
        ),
        r matches Err(e) ==> raw_tables_spec(s@) == Err::<Seq<RawTableModel>, ErrorModel>(e@),
{
    let mut tables: Vec<RawTable> = Vec::new();
    let mut pos: usize = 0;
    assert(raw_tables_view(tables@) =~= Seq::<RawTableModel>::empty());
    loop
        invariant
            pos <= s@.len(),
            tables_from(s@, pos as int, raw_tables_view(tables@)) == raw_tables_spec(s@),
        decreases s@.len() - pos,
    {
        let j = skip_blanks(s, pos);
        if j >= s.len() {
            return Ok(tables);
        }
        match parse(s, j) {
            Ok((e, t)) => {
                if !(pos < e) {
                    return Err(TsqlError::LexError(j));
                }
                if declares_table(&tables, &t.name) {
                    return Err(TsqlError::DuplicateTable(t.name));
                }
                let ghost before = raw_tables_view(tables@);
                let ghost tv = t@;
                tables.push(t);
                assert(raw_tables_view(tables@) =~= before.push(tv));
                pos = e;
            },
            Err(err) => {
                return Err(err);
            },
        }
    }
}

} // verus!
