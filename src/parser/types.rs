use vstd::prelude::*;

use crate::text::{chars_of, string_of};
use crate::types::{names_view, DataType, TableExtra};

verus! {

/// The type of a field as it was written, before resolution.
#[derive(Debug, Clone, PartialEq, Eq, PartialOrd, Ord)]
pub enum RawDataType {
    Unknown,
    Int,
    Bool,
    BigInt,
    Date,
    DateTime,
    Time,
    Double,
    Float,
    Uuid,
    VarChar(u16),
    Char(u8),
    Text(u16),
    Decimal(u8, u8),
    ForeignKeyTable(String),
}

/// What a raw type denotes: a concrete type, or one of the two sentinels.
pub enum RawTypeModel {
    Known(DataType),
    Unknown,
    ForeignKeyTable(Seq<char>),
}

impl View for RawDataType {
    type V = RawTypeModel;

    open spec fn view(&self) -> RawTypeModel {
        match self {
            RawDataType::Unknown => RawTypeModel::Unknown,
            RawDataType::Int => RawTypeModel::Known(DataType::Int),
            RawDataType::Bool => RawTypeModel::Known(DataType::Bool),
            RawDataType::BigInt => RawTypeModel::Known(DataType::BigInt),
            RawDataType::Date => RawTypeModel::Known(DataType::Date),
            RawDataType::DateTime => RawTypeModel::Known(DataType::DateTime),
            RawDataType::Time => RawTypeModel::Known(DataType::Time),
            RawDataType::Double => RawTypeModel::Known(DataType::Double),
            RawDataType::Float => RawTypeModel::Known(DataType::Float),
            RawDataType::Uuid => RawTypeModel::Known(DataType::Uuid),
            RawDataType::VarChar(n) => RawTypeModel::Known(DataType::VarChar(*n)),
            RawDataType::Char(n) => RawTypeModel::Known(DataType::Char(*n)),
            RawDataType::Text(n) => RawTypeModel::Known(DataType::Text(*n)),
            RawDataType::Decimal(p, s) => RawTypeModel::Known(DataType::Decimal(*p, *s)),
            RawDataType::ForeignKeyTable(t) => RawTypeModel::ForeignKeyTable(t@),
        }
    }
}


pub open spec fn digit_value(c: char) -> nat {
    ((c as u32) - 48) as nat
}

/// The number that a run of decimal digits denotes.
pub open spec fn digits_value(ds: Seq<char>) -> nat
    decreases ds.len(),
{
    if ds.len() == 0 {
        0
    } else {
        digits_value(ds.drop_last()) * 10 + digit_value(ds.last())
    }
}

pub open spec fn all_digits(ds: Seq<char>) -> bool {
    forall|k: int| 0 <= k < ds.len() ==> '0' <= #[trigger] ds[k] && ds[k] <= '9'
}

/// A numeric type argument: one or more digits whose value is at most `max`.
pub open spec fn num_arg(a: Seq<char>, max: nat) -> Option<nat> {
    if a.len() > 0 && all_digits(a) && digits_value(a) <= max {
        Some(digits_value(a))
    } else {
        None
    }
}

/// The keywords of the types that take numeric arguments.
pub open spec fn takes_arguments(kw: Seq<char>) -> bool {
    kw == "varchar"@ || kw == "char"@ || kw == "text"@ || kw == "decimal"@
}

/// What a type keyword with its arguments decodes to, if anything. A keyword
/// that takes arguments decodes only with the right number of them.
pub open spec fn decode_spec(kw: Seq<char>, args: Seq<Seq<char>>) -> Option<RawTypeModel> {
    if args.len() == 0 && !takes_arguments(kw) {
        Some(
            if kw == "int"@ {
                RawTypeModel::Known(DataType::Int)
            } else if kw == "bool"@ {
                RawTypeModel::Known(DataType::Bool)
            } else if kw == "bigint"@ {
                RawTypeModel::Known(DataType::BigInt)
            } else if kw == "date"@ {
                RawTypeModel::Known(DataType::Date)
            } else if kw == "datetime"@ {
                RawTypeModel::Known(DataType::DateTime)
            } else if kw == "time"@ {
                RawTypeModel::Known(DataType::Time)
            } else if kw == "double"@ {
                RawTypeModel::Known(DataType::Double)
            } else if kw == "float"@ {
                RawTypeModel::Known(DataType::Float)
            } else if kw == "uuid"@ {
                RawTypeModel::Known(DataType::Uuid)
            } else if kw == "_"@ {
                RawTypeModel::Unknown
            } else {
                RawTypeModel::ForeignKeyTable(kw)
            },
        )
    } else if args.len() == 1 && kw == "varchar"@ {
        match num_arg(args[0], 65535) {
            Some(n) => Some(RawTypeModel::Known(DataType::VarChar(n as u16))),
            None => None,
        }
    } else if args.len() == 1 && kw == "char"@ {
        match num_arg(args[0], 255) {
            Some(n) => Some(RawTypeModel::Known(DataType::Char(n as u8))),
            None => None,
        }
    } else if args.len() == 1 && kw == "text"@ {
        match num_arg(args[0], 65535) {
            Some(n) => Some(RawTypeModel::Known(DataType::Text(n as u16))),
            None => None,
        }
    } else if args.len() == 2 && kw == "decimal"@ {
        match (num_arg(args[0], 255), num_arg(args[1], 255)) {
            (Some(p), Some(s)) => Some(RawTypeModel::Known(DataType::Decimal(p as u8, s as u8))),
            _ => None,
        }
    } else {
        None
    }
}

proof fn lemma_digits_value_prefix(ds: Seq<char>, k: int)
    requires
        0 <= k <= ds.len(),
    ensures
        digits_value(ds.subrange(0, k)) <= digits_value(ds),
    decreases ds.len(),
{
    if k < ds.len() {
        lemma_digits_value_prefix(ds.drop_last(), k);
        assert(ds.drop_last().subrange(0, k) =~= ds.subrange(0, k));
    } else {
        assert(ds.subrange(0, k) =~= ds);
    }
}

/// The value of a numeric argument, if it is one and at most `max`.
pub fn parse_number(a: &str, max: u32) -> (r: Option<u32>)
    requires
        max <= 65535,
    ensures
        r matches Some(n) ==> num_arg(a@, max as nat) == Some(n as nat),
        r is None ==> num_arg(a@, max as nat) is None,
{
    let ds = chars_of(a);
    if ds.len() == 0 {
        return None;
    }
    let mut acc: u32 = 0;
    let mut k: usize = 0;
    while k < ds.len()
        invariant
            k <= ds@.len(),
            ds@ == a@,
            acc == digits_value(ds@.subrange(0, k as int)),
            acc <= max <= 65535,
            all_digits(ds@.subrange(0, k as int)),
        decreases ds@.len() - k,
    {
        let c = ds[k];
        if !('0' <= c && c <= '9') {
            assert(!all_digits(ds@));
            return None;
        }
        let ghost prev = ds@.subrange(0, k as int);
        acc = acc * 10 + (c as u32 - 48);
        k = k + 1;
        assert(ds@.subrange(0, k as int).drop_last() =~= prev);
        assert(all_digits(ds@.subrange(0, k as int)));
        if acc > max {
            proof {
                if all_digits(ds@) {
                    lemma_digits_value_prefix(ds@, k as int);
                }
            }
            return None;
        }
    }
    assert(ds@.subrange(0, k as int) =~= ds@);
    Some(acc)
}

/// Whether `kw` is the keyword `lit`.
pub fn is_keyword(kw: &Vec<char>, lit: &str) -> (r: bool)
    ensures
        r == (kw@ == lit@),
{
    let l = chars_of(lit);
    if kw.len() != l.len() {
        return false;
    }
    let mut k: usize = 0;
    while k < kw.len()
        invariant
            k <= kw@.len(),
            kw@.len() == l@.len(),
            l@ == lit@,
            kw@.subrange(0, k as int) == l@.subrange(0, k as int),
        decreases kw@.len() - k,
    {
        if kw[k] != l[k] {
            return false;
        }
        k = k + 1;
        assert(kw@.subrange(0, k as int) =~= l@.subrange(0, k as int));
    }
    assert(kw@ =~= kw@.subrange(0, k as int));
    assert(l@ =~= l@.subrange(0, k as int));
    true
}

pub open spec fn strs_view(v: Seq<&str>) -> Seq<Seq<char>> {
    v.map_values(|x: &str| x@)
}

impl RawDataType {
    /// Decodes a type keyword with its numeric arguments.
    pub fn parse(input: &str, argument: Vec<&str>) -> (r: Option<RawDataType>)
        ensures
            r matches Some(t) ==> decode_spec(input@, strs_view(argument@)) == Some(t@),
            r is None ==> decode_spec(input@, strs_view(argument@)) is None,
    {
        let kw = chars_of(input);
        let ghost args = strs_view(argument@);
        let takes = is_keyword(&kw, "varchar") || is_keyword(&kw, "char") || is_keyword(&kw, "text")
            || is_keyword(&kw, "decimal");
        if argument.len() == 0 && !takes {
            if is_keyword(&kw, "int") {
                Some(RawDataType::Int)
            } else if is_keyword(&kw, "bool") {
                Some(RawDataType::Bool)
            } else if is_keyword(&kw, "bigint") {
                Some(RawDataType::BigInt)
            } else if is_keyword(&kw, "date") {
                Some(RawDataType::Date)
            } else if is_keyword(&kw, "datetime") {
                Some(RawDataType::DateTime)
            } else if is_keyword(&kw, "time") {
                Some(RawDataType::Time)
            } else if is_keyword(&kw, "double") {
                Some(RawDataType::Double)
            } else if is_keyword(&kw, "float") {
                Some(RawDataType::Float)
            } else if is_keyword(&kw, "uuid") {
                Some(RawDataType::Uuid)
            } else if is_keyword(&kw, "_") {
                Some(RawDataType::Unknown)
            } else {
                Some(RawDataType::ForeignKeyTable(string_of(kw.as_slice())))
            }
        } else if argument.len() == 1 && is_keyword(&kw, "varchar") {
            assert(args[0] == argument@[0]@);
            match parse_number(argument[0], 65535) {
                Some(n) => Some(RawDataType::VarChar(n as u16)),
                None => None,
            }
        } else if argument.len() == 1 && is_keyword(&kw, "char") {
            assert(args[0] == argument@[0]@);
            match parse_number(argument[0], 255) {
                Some(n) => Some(RawDataType::Char(n as u8)),
                None => None,
            }
        } else if argument.len() == 1 && is_keyword(&kw, "text") {
            assert(args[0] == argument@[0]@);
            match parse_number(argument[0], 65535) {
                Some(n) => Some(RawDataType::Text(n as u16)),
                None => None,
            }
        } else if argument.len() == 2 && is_keyword(&kw, "decimal") {
            assert(args[0] == argument@[0]@);
            assert(args[1] == argument@[1]@);
            match (parse_number(argument[0], 255), parse_number(argument[1], 255)) {
                (Some(p), Some(s)) => Some(RawDataType::Decimal(p as u8, s as u8)),
                _ => None,
            }
        } else {
            None
        }
    }
}

/// The annotation that makes a field virtual.
#[derive(Debug, Clone, Copy, PartialEq, Eq, Structural)]
pub enum FieldExtra {
    ForeignKey,
}

/// The annotation that a table may carry.
#[derive(Debug, Clone, Copy, PartialEq, Eq, Structural)]
pub enum TagHelper {
    PrimaryKey,
}

#[derive(Debug)]
pub struct RawField {
    pub name: String,
    pub datatype: RawDataType,
}

/// A field as declared: an ordinary column, or one carrying an annotation.
#[derive(Debug)]
pub enum FieldType {
    Real(RawField),
    Virtual((RawField, FieldExtra)),
}

/// A declared field: its name, its raw type, and whether it is a foreign key.
pub struct RawFieldModel {
    pub name: Seq<char>,
    pub datatype: RawTypeModel,
    pub foreign_key: bool,
}

impl View for FieldType {
    type V = RawFieldModel;

    open spec fn view(&self) -> RawFieldModel {
        match self {
            FieldType::Real(f) => RawFieldModel { name: f.name@, datatype: f.datatype@, foreign_key: false },
            FieldType::Virtual((f, _)) => RawFieldModel {
                name: f.name@,
                datatype: f.datatype@,
                foreign_key: true,
            },
        }
    }
}

/// A table as declared, before its foreign keys are resolved.
#[derive(Debug)]
pub struct RawTable {
    pub extra: TableExtra,
    pub name: String,
    pub fields: Vec<FieldType>,
}

pub struct RawTableModel {
    pub name: Seq<char>,
    pub primary_key: Seq<Seq<char>>,
    pub fields: Seq<RawFieldModel>,
}

pub open spec fn raw_fields_view(v: Seq<FieldType>) -> Seq<RawFieldModel> {
    v.map_values(|f: FieldType| f@)
}

impl View for RawTable {
    type V = RawTableModel;

    open spec fn view(&self) -> RawTableModel {
        RawTableModel {
            name: self.name@,
            primary_key: names_view(self.extra.primary_key@),
            fields: raw_fields_view(self.fields@),
        }
    }
}

/// `name` with its first character made upper case, where it is an ASCII letter.
pub open spec fn capitalized(name: Seq<char>) -> Seq<char> {
    if name.len() > 0 && 'a' <= name[0] && name[0] <= 'z' {
        name.update(0, ((name[0] as u32) - 32) as char)
    } else {
        name
    }
}

/// The table that a field refers to: the one its type names, or, where the
/// type is left open (`_`), the one named after the field itself.
pub open spec fn fk_target(f: RawFieldModel) -> Option<Seq<char>> {
    if f.foreign_key {
        match f.datatype {
            RawTypeModel::ForeignKeyTable(t) => Some(t),
            RawTypeModel::Unknown => Some(capitalized(f.name)),
            RawTypeModel::Known(_) => None,
        }
    } else {
        None
    }
}

/// The tables that the fields refer to, in field order.
pub open spec fn fk_targets(fs: Seq<RawFieldModel>) -> Seq<Seq<char>>
    decreases fs.len(),
{
    if fs.len() == 0 {
        seq![]
    } else {
        match fk_target(fs.last()) {
            Some(t) => fk_targets(fs.drop_last()).push(t),
            None => fk_targets(fs.drop_last()),
        }
    }
}

/// Makes `name` capitalized as `capitalized` says.
pub fn capitalize(name: &String) -> (r: String)
    ensures
        r@ == capitalized(name@),
{
    let mut cs = chars_of(name.as_str());
    if cs.len() > 0 && 'a' <= cs[0] && cs[0] <= 'z' {
        let c = ((cs[0] as u32) - 32) as u8 as char;
        cs.set(0, c);
    }
    string_of(cs.as_slice())
}

impl RawTable {
    pub fn has_fk(&self) -> (r: bool)
        ensures
            r == (fk_targets(self@.fields).len() > 0),
    {
        self.fk_tables().len() != 0
    }

    /// The names of the tables that this table refers to, in field order.
    pub fn fk_tables(&self) -> (r: Vec<String>)
        ensures
            names_view(r@) == fk_targets(self@.fields),
    {
        let mut out: Vec<String> = Vec::new();
        let mut k: usize = 0;
        while k < self.fields.len()
            invariant
                k <= self.fields@.len(),
                names_view(out@) == fk_targets(self@.fields.subrange(0, k as int)),
            decreases self.fields@.len() - k,
        {
            let ghost prev = out@;
            assert(self@.fields.subrange(0, k + 1).drop_last() =~= self@.fields.subrange(0, k as int));
            match &self.fields[k] {
                FieldType::Real(_) => {},
                FieldType::Virtual((f, _)) => {
                    match &f.datatype {
                        RawDataType::ForeignKeyTable(t) => {
                            out.push(t.clone());
                            assert(names_view(out@) =~= names_view(prev).push(t@));
                        },
                        RawDataType::Unknown => {
                            let t = capitalize(&f.name);
                            out.push(t);
                            assert(names_view(out@) =~= names_view(prev).push(t@));
                        },
                        _ => {},
                    }
                },
            }
            k = k + 1;
        }
        assert(self@.fields.subrange(0, k as int) =~= self@.fields);
        out
    }
}

} // verus!

