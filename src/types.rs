use vstd::prelude::*;

use crate::parser::types::{RawDataType, RawTypeModel};

verus! {

/// A concrete column type.
#[derive(Debug, Clone, Copy, PartialEq, Eq, Structural, PartialOrd, Ord, Hash)]
pub enum DataType {
    Int,
    Bool,
    BigInt,
    Date,
    DateTime,
    Time,
    Double,
    Float,
    Uuid,
    VarChar(u16),
    Char(u8),
    Text(u16),
    /// values: `(precision, scale)`
    Decimal(u8, u8),
}

/// The decimal digits of `n`, most significant first, without leading zeros.
pub open spec fn decimal_digits(n: nat) -> Seq<char>
    decreases n,
{
    if n < 10 {
        seq![digit_char(n)]
    } else {
        decimal_digits(n / 10).push(digit_char(n % 10))
    }
}

pub open spec fn digit_char(d: nat) -> char {
    ((d + 48) as u32) as char
}

/// The type as it is written in SQL and in TSQL output.
pub open spec fn format_spec(d: DataType) -> Seq<char> {
    match d {
        DataType::Int => "int"@,
        DataType::Bool => "boolean"@,
        DataType::BigInt => "bigint"@,
        DataType::Date => "date"@,
        DataType::DateTime => "datetime"@,
        DataType::Time => "time"@,
        DataType::Double => "double"@,
        DataType::Float => "float"@,
        DataType::Uuid => "uuid"@,
        DataType::VarChar(n) => "varchar("@ + decimal_digits(n as nat) + ")"@,
        DataType::Char(n) => "char("@ + decimal_digits(n as nat) + ")"@,
        DataType::Text(n) => "text("@ + decimal_digits(n as nat) + ")"@,
        DataType::Decimal(p, s) => "decimal("@ + decimal_digits(p as nat) + ", "@ + decimal_digits(
            s as nat,
        ) + ")"@,
    }
}

/// Appends the decimal digits of `n` to `buf`.
pub fn push_decimal(buf: &mut String, n: u16)
    ensures
        final(buf)@ == old(buf)@ + decimal_digits(n as nat),
{
    let mut digits: Vec<char> = Vec::new();
    let mut m: u16 = n;
    // digits of `m` still to come, followed by those already collected (reversed)
    loop
        invariant_except_break
            decimal_digits(n as nat) == decimal_digits(m as nat) + digits@.reverse(),
        invariant
            m <= n,
        ensures
            decimal_digits(n as nat) == digits@.reverse(),
        decreases m,
    {
        let d = m % 10;
        let c = ((d + 48) as u8) as char;
        let ghost before = digits@;
        digits.push(c);
        assert(c == digit_char(d as nat));
        if m < 10 {
            assert(digits@.reverse() =~= seq![c] + before.reverse());
            assert(decimal_digits(m as nat) == seq![c]);
            break;
        }
        assert(digits@.reverse() =~= seq![c] + before.reverse());
        assert(decimal_digits(m as nat) == decimal_digits((m / 10) as nat).push(c));
        assert(decimal_digits(m as nat) + before.reverse() =~= decimal_digits((m / 10) as nat)
            + digits@.reverse());
        m = m / 10;
    }
    let mut k = digits.len();
    let ghost start = buf@;
    while k > 0
        invariant
            k <= digits@.len(),
            buf@ == start + digits@.reverse().subrange(0, digits@.len() - k),
        decreases k,
    {
        k = k - 1;
        buf.push(digits[k]);
        assert(buf@ =~= start + digits@.reverse().subrange(0, digits@.len() - k));
    }
    assert(digits@.reverse().subrange(0, digits@.len() as int) =~= digits@.reverse());
}

impl DataType {
    /// The concrete type that a raw type stands for: `None` for the sentinels.
    pub fn parse(raw: &RawDataType) -> (r: Option<DataType>)
        ensures
            r == match raw@ {
                RawTypeModel::Known(d) => Some(d),
                _ => None,
            },
    {
        match raw {
            RawDataType::Int => Some(DataType::Int),
            RawDataType::Bool => Some(DataType::Bool),
            RawDataType::BigInt => Some(DataType::BigInt),
            RawDataType::Date => Some(DataType::Date),
            RawDataType::DateTime => Some(DataType::DateTime),
            RawDataType::Time => Some(DataType::Time),
            RawDataType::Double => Some(DataType::Double),
            RawDataType::Float => Some(DataType::Float),
            RawDataType::Uuid => Some(DataType::Uuid),
            RawDataType::VarChar(n) => Some(DataType::VarChar(*n)),
            RawDataType::Char(n) => Some(DataType::Char(*n)),
            RawDataType::Text(n) => Some(DataType::Text(*n)),
            RawDataType::Decimal(p, s) => Some(DataType::Decimal(*p, *s)),
            RawDataType::Unknown => None,
            RawDataType::ForeignKeyTable(_) => None,
        }
    }

    /// Appends the type as SQL writes it to `buf`.
    pub fn format_into(&self, buf: &mut String)
        ensures
            final(buf)@ == old(buf)@ + format_spec(*self),
    {
        let ghost start = buf@;
        match self {
            DataType::Int => buf.push_str("int"),
            DataType::Bool => buf.push_str("boolean"),
            DataType::BigInt => buf.push_str("bigint"),
            DataType::Date => buf.push_str("date"),
            DataType::DateTime => buf.push_str("datetime"),
            DataType::Time => buf.push_str("time"),
            DataType::Double => buf.push_str("double"),
            DataType::Float => buf.push_str("float"),
            DataType::Uuid => buf.push_str("uuid"),
            DataType::VarChar(n) => {
                buf.push_str("varchar(");
                push_decimal(buf, *n);
                buf.push_str(")");
                assert(buf@ =~= start + format_spec(*self));
            },
            DataType::Char(n) => {
                buf.push_str("char(");
                push_decimal(buf, *n as u16);
                buf.push_str(")");
                assert(buf@ =~= start + format_spec(*self));
            },
            DataType::Text(n) => {
                buf.push_str("text(");
                push_decimal(buf, *n);
                buf.push_str(")");
                assert(buf@ =~= start + format_spec(*self));
            },
            DataType::Decimal(p, s) => {
                buf.push_str("decimal(");
                push_decimal(buf, *p as u16);
                buf.push_str(", ");
                push_decimal(buf, *s as u16);
                buf.push_str(")");
                assert(buf@ =~= start + format_spec(*self));
            },
        }
    }

    /// The type as SQL writes it.
    pub fn format(&self) -> (r: String)
        ensures
            r@ == format_spec(*self),
    {
        let mut s = String::new();
        self.format_into(&mut s);
        assert(s@ =~= format_spec(*self));
        s
    }
}


pub open spec fn names_view(v: Seq<String>) -> Seq<Seq<char>> {
    v.map_values(|x: String| x@)
}

/// Metadata of a table: its primary key, in declaration order.
#[derive(Debug, PartialEq, Eq)]
pub struct TableExtra {
    pub primary_key: Vec<String>,
}

impl Default for TableExtra {
    fn default() -> (r: TableExtra)
        ensures
            r.primary_key@.len() == 0,
    {
        TableExtra { primary_key: Vec::new() }
    }
}

impl TableExtra {
    /// The names of the primary-key columns.
    pub open spec fn pk_view(&self) -> Seq<Seq<char>> {
        names_view(self.primary_key@)
    }

    pub fn new_with_pk(primary_key: Vec<String>) -> (r: TableExtra)
        ensures
            r.primary_key@ == primary_key@,
    {
        TableExtra { primary_key }
    }

    pub fn primary_key(&self) -> (r: &Vec<String>)
        ensures
            r == &self.primary_key,
    {
        &self.primary_key
    }

    pub fn primary_key_mut(&mut self) -> (r: &mut Vec<String>)
        ensures
            *r == old(self).primary_key,
            final(self).primary_key == *final(r),
    {
        &mut self.primary_key
    }
}


/// A resolved column.
#[derive(Debug)]
pub struct Field {
    pub name: String,
    pub datatype: DataType,
    /// The table that this column refers to, with a copy of the referenced column.
    pub foreign_key_reference: Option<(String, Box<Field>)>,
}

pub struct FieldModel {
    pub name: Seq<char>,
    pub datatype: DataType,
    pub reference: Option<(Seq<char>, Box<FieldModel>)>,
}

pub open spec fn field_model(f: Field) -> FieldModel
    decreases f,
{
    FieldModel {
        name: f.name@,
        datatype: f.datatype,
        reference: match f.foreign_key_reference {
            Some((t, g)) => Some((t@, Box::new(field_model(*g)))),
            None => None,
        },
    }
}

impl View for Field {
    type V = FieldModel;

    open spec fn view(&self) -> FieldModel {
        field_model(*self)
    }
}

pub open spec fn fields_model(v: Seq<Field>) -> Seq<FieldModel> {
    v.map_values(|f: Field| f@)
}

impl Field {
    pub fn new(name: String, datatype: DataType) -> (r: Field)
        ensures
            r.name@ == name@,
            r.datatype == datatype,
            r.foreign_key_reference is None,
    {
        Field::new_with_fk(name, datatype, None)
    }

    pub fn new_with_fk(
        name: String,
        datatype: DataType,
        foreign_key_reference: Option<(String, Box<Field>)>,
    ) -> (r: Field)
        ensures
            r.name@ == name@,
            r.datatype == datatype,
            r.foreign_key_reference == foreign_key_reference,
    {
        Field { name, datatype, foreign_key_reference }
    }

    pub fn datatype(&self) -> (r: &DataType)
        ensures
            *r == self.datatype,
    {
        &self.datatype
    }

    /// A copy of this column, references included.
    pub fn snapshot(&self) -> (r: Field)
        ensures
            r@ == self@,
        decreases self,
    {
        let reference = match &self.foreign_key_reference {
            Some((t, g)) => {
                let inner: &Field = &**g;
                Some((t.clone(), Box::new(inner.snapshot())))
            },
            None => None,
        };
        Field { name: self.name.clone(), datatype: self.datatype, foreign_key_reference: reference }
    }
}

/// A resolved table.
#[derive(Debug)]
pub struct Table {
    pub extra: TableExtra,
    pub name: String,
    pub fields: Vec<Field>,
}

pub struct TableModel {
    pub name: Seq<char>,
    pub fields: Seq<FieldModel>,
    pub primary_key: Seq<Seq<char>>,
}

impl View for Table {
    type V = TableModel;

    open spec fn view(&self) -> TableModel {
        TableModel {
            name: self.name@,
            fields: fields_model(self.fields@),
            primary_key: self.extra.pk_view(),
        }
    }
}

/// The first field of that name.
pub open spec fn find_field(fs: Seq<FieldModel>, name: Seq<char>) -> Option<FieldModel>
    decreases fs.len(),
{
    if fs.len() == 0 {
        None
    } else if fs[0].name == name {
        Some(fs[0])
    } else {
        find_field(fs.drop_first(), name)
    }
}

/// The index of the first field named `name`.
pub fn find_field_index(fields: &Vec<Field>, name: &String) -> (r: Option<usize>)
    ensures
        r matches Some(k) ==> k < fields@.len() && find_field(fields_model(fields@), name@) == Some(
            fields@[k as int]@,
        ),
        r is None ==> find_field(fields_model(fields@), name@) is None,
{
    let ghost fs = fields_model(fields@);
    assert(fs.subrange(0, fs.len() as int) =~= fs);
    let mut k: usize = 0;
    while k < fields.len()
        invariant
            k <= fields@.len(),
            fs == fields_model(fields@),
            find_field(fs, name@) == find_field(fs.subrange(k as int, fs.len() as int), name@),
        decreases fields@.len() - k,
    {
        let ghost rest = fs.subrange(k as int, fs.len() as int);
        assert(rest[0] == fields@[k as int]@);
        if fields[k].name == *name {
            return Some(k);
        }
        assert(rest.drop_first() =~= fs.subrange(k + 1, fs.len() as int));
        k = k + 1;
    }
    None
}

impl Table {
    pub fn new(name: String, fields: Vec<Field>, extra: TableExtra) -> (r: Table)
        ensures
            r.name@ == name@,
            r.fields@ == fields@,
            r.extra == extra,
    {
        Table { extra, name, fields }
    }

    /// The first field called `key`.
    pub fn get_field(&self, key: &str) -> (r: Option<&Field>)
        ensures
            r matches Some(f) ==> find_field(self@.fields, key@) == Some(f@),
            r is None ==> find_field(self@.fields, key@) is None,
    {
        let k = key.to_owned();
        match find_field_index(&self.fields, &k) {
            Some(i) => Some(&self.fields[i]),
            None => None,
        }
    }

    pub fn primary_keys(&self) -> (r: &Vec<String>)
        ensures
            r == &self.extra.primary_key,
    {
        &self.extra.primary_key
    }
}

/// Resolved tables, ordered by name.
#[derive(Debug)]
pub struct TableCollection {
    pub tables: Vec<Table>,
}

pub open spec fn tables_model(v: Seq<Table>) -> Seq<TableModel> {
    v.map_values(|t: Table| t@)
}

impl View for TableCollection {
    type V = Seq<TableModel>;

    open spec fn view(&self) -> Seq<TableModel> {
        tables_model(self.tables@)
    }
}

/// The first table of that name.
pub open spec fn find_table(c: Seq<TableModel>, name: Seq<char>) -> Option<TableModel>
    decreases c.len(),
{
    if c.len() == 0 {
        None
    } else if c[0].name == name {
        Some(c[0])
    } else {
        find_table(c.drop_first(), name)
    }
}

impl TableCollection {
    pub fn new() -> (r: TableCollection)
        ensures
            r@.len() == 0,
    {
        let c = TableCollection { tables: Vec::new() };
        assert(c@ =~= Seq::<TableModel>::empty());
        c
    }

    pub fn len(&self) -> (r: usize)
        ensures
            r == self@.len(),
    {
        self.tables.len()
    }

    /// The index of the table called `name`.
    pub fn find_index(&self, name: &String) -> (r: Option<usize>)
        ensures
            r matches Some(k) ==> k < self@.len() && find_table(self@, name@) == Some(
                self@[k as int],
            ),
            r is None ==> find_table(self@, name@) is None,
    {
        let ghost c = self@;
        assert(c.subrange(0, c.len() as int) =~= c);
        let mut k: usize = 0;
        while k < self.tables.len()
            invariant
                k <= self.tables@.len(),
                c == self@,
                find_table(c, name@) == find_table(c.subrange(k as int, c.len() as int), name@),
            decreases self.tables@.len() - k,
        {
            let ghost rest = c.subrange(k as int, c.len() as int);
            assert(rest[0] == self.tables@[k as int]@);
            if self.tables[k].name == *name {
                return Some(k);
            }
            assert(rest.drop_first() =~= c.subrange(k + 1, c.len() as int));
            k = k + 1;
        }
        None
    }

    /// The table called `name`.
    pub fn get(&self, name: &str) -> (r: Option<&Table>)
        ensures
            r matches Some(t) ==> find_table(self@, name@) == Some(t@),
            r is None ==> find_table(self@, name@) is None,
    {
        let n = name.to_owned();
        match self.find_index(&n) {
            Some(k) => Some(&self.tables[k]),
            None => None,
        }
    }
}

} // verus!


