use vstd::prelude::*;

use crate::resolve::contains_name;
use crate::types::{
    fields_model, format_spec, names_view, DataType, Field, FieldModel, Table, TableCollection, TableExtra,
    TableModel,
};

verus! {

/// The items joined with `sep` between neighbours.
pub open spec fn join(xs: Seq<Seq<char>>, sep: Seq<char>) -> Seq<char>
    decreases xs.len(),
{
    if xs.len() == 0 {
        seq![]
    } else if xs.len() == 1 {
        xs[0]
    } else {
        join(xs.drop_last(), sep) + sep + xs.last()
    }
}

/// Appends `names` joined with `sep`.
pub fn push_joined(buf: &mut String, names: &Vec<String>, sep: &str)
    ensures
        final(buf)@ == old(buf)@ + join(names_view(names@), sep@),
{
    let ghost start = buf@;
    let ghost nv = names_view(names@);
    let mut k: usize = 0;
    assert(nv.subrange(0, 0) =~= Seq::<Seq<char>>::empty());
    assert(buf@ =~= start + join(nv.subrange(0, 0), sep@));
    while k < names.len()
        invariant
            k <= names@.len(),
            nv == names_view(names@),
            buf@ == start + join(nv.subrange(0, k as int), sep@),
        decreases names@.len() - k,
    {
        let ghost sub = nv.subrange(0, k + 1);
        assert(sub.drop_last() =~= nv.subrange(0, k as int));
        assert(sub.last() == names@[k as int]@);
        if k > 0 {
            buf.push_str(sep);
        }
        buf.push_str(names[k].as_str());
        if k == 0 {
            assert(buf@ =~= start + join(sub, sep@));
        } else {
            assert(buf@ =~= start + join(sub, sep@));
        }
        k = k + 1;
    }
    assert(nv.subrange(0, k as int) =~= nv);
}

/// The names of the tables that the fields refer to, each once, in order of
/// first reference.
pub open spec fn referenced_tables(fs: Seq<FieldModel>) -> Seq<Seq<char>>
    decreases fs.len(),
{
    if fs.len() == 0 {
        seq![]
    } else {
        let prev = referenced_tables(fs.drop_last());
        match fs.last().reference {
            Some((t, _)) => if prev.contains(t) {
                prev
            } else {
                prev.push(t)
            },
            None => prev,
        }
    }
}

/// The fields that refer to table `t`, in order.
pub open spec fn referring_fields(fs: Seq<FieldModel>, t: Seq<char>) -> Seq<FieldModel>
    decreases fs.len(),
{
    if fs.len() == 0 {
        seq![]
    } else {
        let prev = referring_fields(fs.drop_last(), t);
        match fs.last().reference {
            Some((u, _)) => if u == t {
                prev.push(fs.last())
            } else {
                prev
            },
            None => prev,
        }
    }
}

pub open spec fn field_names(fs: Seq<FieldModel>) -> Seq<Seq<char>> {
    fs.map_values(|f: FieldModel| f.name)
}

/// The names of the columns that the fields refer to.
pub open spec fn referenced_names(fs: Seq<FieldModel>) -> Seq<Seq<char>> {
    fs.map_values(
        |f: FieldModel|
            match f.reference {
                Some((_, g)) => g.name,
                None => seq![],
            },
    )
}

/// `FOREIGN KEY (<cols>) REFERENCES <t>(<referenced cols>),` and a line break.
pub open spec fn foreign_key_line(fs: Seq<FieldModel>, t: Seq<char>) -> Seq<char> {
    let g = referring_fields(fs, t);
    "FOREIGN KEY ("@ + join(field_names(g), ","@) + ") REFERENCES "@ + t + "("@ + join(
        referenced_names(g),
        ","@,
    ) + "),\n"@
}

/// The foreign-key lines for the tables `ts`, in order.
pub open spec fn foreign_key_lines(fs: Seq<FieldModel>, ts: Seq<Seq<char>>) -> Seq<char>
    decreases ts.len(),
{
    if ts.len() == 0 {
        seq![]
    } else {
        foreign_key_lines(fs, ts.drop_last()) + foreign_key_line(fs, ts.last())
    }
}

/// `<name> <type>,` and a line break.
pub open spec fn sql_column(f: FieldModel) -> Seq<char> {
    f.name + " "@ + format_spec(f.datatype) + ",\n"@
}

pub open spec fn sql_columns(fs: Seq<FieldModel>) -> Seq<char>
    decreases fs.len(),
{
    if fs.len() == 0 {
        seq![]
    } else {
        sql_columns(fs.drop_last()) + sql_column(fs.last())
    }
}

/// The `CREATE TABLE` statement of a table.
pub open spec fn sql_table(t: TableModel) -> Seq<char> {
    "CREATE TABLE "@ + t.name + " (\n"@ + sql_columns(t.fields) + foreign_key_lines(
        t.fields,
        referenced_tables(t.fields),
    ) + "PRIMARY KEY ("@ + join(t.primary_key, ","@) + ")\n"@ + ");\n"@
}

/// `\t<type> <name>,` and a line break.
pub open spec fn tsql_column(f: FieldModel) -> Seq<char> {
    "\t"@ + format_spec(f.datatype) + " "@ + f.name + ",\n"@
}

pub open spec fn tsql_columns(fs: Seq<FieldModel>) -> Seq<char>
    decreases fs.len(),
{
    if fs.len() == 0 {
        seq![]
    } else {
        tsql_columns(fs.drop_last()) + tsql_column(fs.last())
    }
}

/// The annotation line of a primary key; nothing for an empty key.
pub open spec fn tsql_primary_key(pk: Seq<Seq<char>>) -> Seq<char> {
    if pk.len() == 0 {
        seq![]
    } else {
        "@primary_key("@ + join(pk, ", "@) + ")\n"@
    }
}

/// The TSQL declaration of a table.
pub open spec fn tsql_table(t: TableModel) -> Seq<char> {
    tsql_primary_key(t.primary_key) + "table "@ + t.name + " {\n"@ + tsql_columns(t.fields)
        + "};\n"@
}

/// Writes a value as SQL.
pub trait TransformSQL {
    spec fn sql_spec(&self) -> Seq<char>;

    /// Appends the SQL text of the value to `buffer`.
    fn transform_into_sql(&self, buffer: &mut String)
        ensures
            final(buffer)@ == old(buffer)@ + self.sql_spec(),
    ;
}

/// Writes a value as TSQL.
pub trait TransformTSQL {
    spec fn tsql_spec(&self) -> Seq<char>;

    /// Appends the TSQL text of the value to `buffer`.
    fn transform_into_tsql(&self, buffer: &mut String)
        ensures
            final(buffer)@ == old(buffer)@ + self.tsql_spec(),
    ;
}

impl TransformSQL for DataType {
    open spec fn sql_spec(&self) -> Seq<char> {
        format_spec(*self) + ",\n"@
    }

    fn transform_into_sql(&self, buffer: &mut String) {
        let ghost start = buffer@;
        self.format_into(buffer);
        buffer.push_str(",\n");
        assert(buffer@ =~= start + self.sql_spec());
    }
}

impl TransformTSQL for DataType {
    open spec fn tsql_spec(&self) -> Seq<char> {
        format_spec(*self)
    }

    fn transform_into_tsql(&self, buffer: &mut String) {
        self.format_into(buffer);
    }
}

impl TransformSQL for Field {
    open spec fn sql_spec(&self) -> Seq<char> {
        sql_column(self@)
    }

    fn transform_into_sql(&self, buffer: &mut String) {
        let ghost start = buffer@;
        buffer.push_str(self.name.as_str());
        buffer.push_str(" ");
        self.datatype.transform_into_sql(buffer);
        assert(buffer@ =~= start + self.sql_spec());
    }
}

impl TransformTSQL for Field {
    open spec fn tsql_spec(&self) -> Seq<char> {
        tsql_column(self@)
    }

    fn transform_into_tsql(&self, buffer: &mut String) {
        let ghost start = buffer@;
        buffer.push_str("\t");
        self.datatype.transform_into_tsql(buffer);
        buffer.push_str(" ");
        buffer.push_str(self.name.as_str());
        buffer.push_str(",\n");
        assert(buffer@ =~= start + self.tsql_spec());
    }
}

impl TransformTSQL for TableExtra {
    open spec fn tsql_spec(&self) -> Seq<char> {
        tsql_primary_key(self.pk_view())
    }

    fn transform_into_tsql(&self, buffer: &mut String) {
        let ghost start = buffer@;
        if self.primary_key.len() != 0 {
            buffer.push_str("@primary_key(");
            push_joined(buffer, &self.primary_key, ", ");
            buffer.push_str(")\n");
            assert(buffer@ =~= start + self.tsql_spec());
        } else {
            assert(buffer@ =~= start + self.tsql_spec());
        }
    }
}

/// The names of the tables that the fields refer to, as `referenced_tables` says.
fn referenced_table_names(fields: &Vec<Field>) -> (r: Vec<String>)
    ensures
        names_view(r@) == referenced_tables(fields_model(fields@)),
{
    let ghost fv = fields_model(fields@);
    let mut out: Vec<String> = Vec::new();
    let mut k: usize = 0;
    assert(fv.subrange(0, 0) =~= Seq::<FieldModel>::empty());
    while k < fields.len()
        invariant
            k <= fields@.len(),
            fv == fields_model(fields@),
            names_view(out@) == referenced_tables(fv.subrange(0, k as int)),
        decreases fields@.len() - k,
    {
        let ghost sub = fv.subrange(0, k + 1);
        assert(sub.drop_last() =~= fv.subrange(0, k as int));
        assert(sub.last() == fields@[k as int]@);
        match &fields[k].foreign_key_reference {
            Some((t, _)) => {
                let seen = contains_name(&out, t);
                if !seen {
                    let ghost before = out@;
                    let x = t.clone();
                    out.push(x);
                    assert(names_view(out@) =~= names_view(before).push(x@));
                }
            },
            None => {},
        }
        k = k + 1;
    }
    assert(fv.subrange(0, k as int) =~= fv);
    out
}

/// The names of the fields that refer to table `t`, and of the columns they refer to.
fn referring_names(fields: &Vec<Field>, t: &String) -> (r: (Vec<String>, Vec<String>))
    ensures
        names_view(r.0@) == field_names(referring_fields(fields_model(fields@), t@)),
        names_view(r.1@) == referenced_names(referring_fields(fields_model(fields@), t@)),
{
    let ghost fv = fields_model(fields@);
    let mut cols: Vec<String> = Vec::new();
    let mut refs: Vec<String> = Vec::new();
    let mut k: usize = 0;
    assert(fv.subrange(0, 0) =~= Seq::<FieldModel>::empty());
    assert(names_view(cols@) =~= field_names(referring_fields(fv.subrange(0, 0), t@)));
    assert(names_view(refs@) =~= referenced_names(referring_fields(fv.subrange(0, 0), t@)));
    while k < fields.len()
        invariant
            k <= fields@.len(),
            fv == fields_model(fields@),
            names_view(cols@) == field_names(referring_fields(fv.subrange(0, k as int), t@)),
            names_view(refs@) == referenced_names(referring_fields(fv.subrange(0, k as int), t@)),
        decreases fields@.len() - k,
    {
        let ghost sub = fv.subrange(0, k + 1);
        assert(sub.drop_last() =~= fv.subrange(0, k as int));
        assert(sub.last() == fields@[k as int]@);
        let ghost g0 = referring_fields(fv.subrange(0, k as int), t@);
        match &fields[k].foreign_key_reference {
            Some((u, g)) => {
                if *u == *t {
                    let ghost cb = cols@;
                    let ghost rb = refs@;
                    let x = fields[k].name.clone();
                    let inner: &Field = &**g;
                    let y = inner.name.clone();
                    assert(fields@[k as int]@.reference == Some((u@, Box::new(inner@))));
                    assert(inner@.name == y@);
                    cols.push(x);
                    refs.push(y);
                    assert(names_view(cols@) =~= names_view(cb).push(x@));
                    assert(names_view(refs@) =~= names_view(rb).push(y@));
                    assert(field_names(g0.push(fields@[k as int]@)) =~= field_names(g0).push(x@));
                    assert(referenced_names(g0.push(fields@[k as int]@)) =~= referenced_names(g0).push(y@));
                }
            },
            None => {},
        }
        k = k + 1;
    }
    assert(fv.subrange(0, k as int) =~= fv);
    (cols, refs)
}

impl TransformSQL for Table {
    open spec fn sql_spec(&self) -> Seq<char> {
        sql_table(self@)
    }

    fn transform_into_sql(&self, buffer: &mut String) {
        let ghost start = buffer@;
        let ghost fv = fields_model(self.fields@);
        buffer.push_str("CREATE TABLE ");
        buffer.push_str(self.name.as_str());
        buffer.push_str(" (\n");
        let ghost head = buffer@;
        let mut k: usize = 0;
        assert(fv.subrange(0, 0) =~= Seq::<FieldModel>::empty());
        assert(buffer@ =~= head + sql_columns(fv.subrange(0, 0)));
        while k < self.fields.len()
            invariant
                k <= self.fields@.len(),
                fv == fields_model(self.fields@),
                buffer@ == head + sql_columns(fv.subrange(0, k as int)),
            decreases self.fields@.len() - k,
        {
            let ghost sub = fv.subrange(0, k + 1);
            assert(sub.drop_last() =~= fv.subrange(0, k as int));
            assert(sub.last() == self.fields@[k as int]@);
            self.fields[k].transform_into_sql(buffer);
            assert(buffer@ =~= head + sql_columns(sub));
            k = k + 1;
        }
        assert(fv.subrange(0, k as int) =~= fv);
        let tables = referenced_table_names(&self.fields);
        let ghost tv = names_view(tables@);
        let ghost mid = buffer@;
        let mut j: usize = 0;
        assert(tv.subrange(0, 0) =~= Seq::<Seq<char>>::empty());
        assert(buffer@ =~= mid + foreign_key_lines(fv, tv.subrange(0, 0)));
        while j < tables.len()
            invariant
                j <= tables@.len(),
                tv == names_view(tables@),
                fv == fields_model(self.fields@),
                buffer@ == mid + foreign_key_lines(fv, tv.subrange(0, j as int)),
            decreases tables@.len() - j,
        {
            let ghost sub = tv.subrange(0, j + 1);
            assert(sub.drop_last() =~= tv.subrange(0, j as int));
            assert(sub.last() == tables@[j as int]@);
            let ghost before = buffer@;
            let (cols, refs) = referring_names(&self.fields, &tables[j]);
            buffer.push_str("FOREIGN KEY (");
            push_joined(buffer, &cols, ",");
            buffer.push_str(") REFERENCES ");
            buffer.push_str(tables[j].as_str());
            buffer.push_str("(");
            push_joined(buffer, &refs, ",");
            buffer.push_str("),\n");
            assert(buffer@ =~= before + foreign_key_line(fv, tables@[j as int]@));
            assert(buffer@ =~= mid + foreign_key_lines(fv, sub));
            j = j + 1;
        }
        assert(tv.subrange(0, j as int) =~= tv);
        buffer.push_str("PRIMARY KEY (");
        push_joined(buffer, &self.extra.primary_key, ",");
        buffer.push_str(")\n");
        buffer.push_str(");\n");
        assert(buffer@ =~= start + self.sql_spec());
    }
}

impl TransformTSQL for Table {
    open spec fn tsql_spec(&self) -> Seq<char> {
        tsql_table(self@)
    }

    fn transform_into_tsql(&self, buffer: &mut String) {
        let ghost start = buffer@;
        let ghost fv = fields_model(self.fields@);
        self.extra.transform_into_tsql(buffer);
        buffer.push_str("table ");
        buffer.push_str(self.name.as_str());
        buffer.push_str(" {\n");
        let ghost head = buffer@;
        let mut k: usize = 0;
        assert(fv.subrange(0, 0) =~= Seq::<FieldModel>::empty());
        assert(buffer@ =~= head + tsql_columns(fv.subrange(0, 0)));
        while k < self.fields.len()
            invariant
                k <= self.fields@.len(),
                fv == fields_model(self.fields@),
                buffer@ == head + tsql_columns(fv.subrange(0, k as int)),
            decreases self.fields@.len() - k,
        {
            let ghost sub = fv.subrange(0, k + 1);
            assert(sub.drop_last() =~= fv.subrange(0, k as int));
            assert(sub.last() == self.fields@[k as int]@);
            self.fields[k].transform_into_tsql(buffer);
            assert(buffer@ =~= head + tsql_columns(sub));
            k = k + 1;
        }
        assert(fv.subrange(0, k as int) =~= fv);
        buffer.push_str("};\n");
        assert(buffer@ =~= start + self.tsql_spec());
    }
}

} // verus!

verus! {

/// The TSQL of all tables of a collection, in its order.
pub open spec fn tsql_collection(c: Seq<TableModel>) -> Seq<char>
    decreases c.len(),
{
    if c.len() == 0 {
        seq![]
    } else {
        tsql_collection(c.drop_last()) + tsql_table(c.last())
    }
}

/// The TSQL of all tables of the collection.
pub fn collection_tsql(c: &TableCollection) -> (r: String)
    ensures
        r@ == tsql_collection(c@),
{
    let mut out = String::new();
    let ghost cv = c@;
    let mut k: usize = 0;
    assert(cv.subrange(0, 0) =~= Seq::<TableModel>::empty());
    while k < c.tables.len()
        invariant
            k <= c.tables@.len(),
            cv == c@,
            out@ == tsql_collection(cv.subrange(0, k as int)),
        decreases c.tables@.len() - k,
    {
        let ghost sub = cv.subrange(0, k + 1);
        assert(sub.drop_last() =~= cv.subrange(0, k as int));
        assert(sub.last() == c.tables@[k as int]@);
        c.tables[k].transform_into_tsql(&mut out);
        k = k + 1;
    }
    assert(cv.subrange(0, k as int) =~= cv);
    out
}

/// The SQL of all tables of a collection, in its order.
pub open spec fn sql_collection(c: Seq<TableModel>) -> Seq<char>
    decreases c.len(),
{
    if c.len() == 0 {
        seq![]
    } else {
        sql_collection(c.drop_last()) + sql_table(c.last())
    }
}

/// The SQL of all tables of the collection.
pub fn collection_sql(c: &TableCollection) -> (r: String)
    ensures
        r@ == sql_collection(c@),
{
    let mut out = String::new();
    let ghost cv = c@;
    let mut k: usize = 0;
    assert(cv.subrange(0, 0) =~= Seq::<TableModel>::empty());
    while k < c.tables.len()
        invariant
            k <= c.tables@.len(),
            cv == c@,
            out@ == sql_collection(cv.subrange(0, k as int)),
        decreases c.tables@.len() - k,
    {
        let ghost sub = cv.subrange(0, k + 1);
        assert(sub.drop_last() =~= cv.subrange(0, k as int));
        assert(sub.last() == c.tables@[k as int]@);
        c.tables[k].transform_into_sql(&mut out);
        k = k + 1;
    }
    assert(cv.subrange(0, k as int) =~= cv);
    out
}

} // verus!

verus! {

/// Appends an SQL comment line: `-- <content>` and a line break.
pub fn writeln_sql_comment(buffer: &mut String, content: &str)
    ensures
        final(buffer)@ == old(buffer)@ + "-- "@ + content@ + "\n"@,
{
    buffer.push_str("-- ");
    buffer.push_str(content);
    buffer.push_str("\n");
}

} // verus!
