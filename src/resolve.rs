use vstd::prelude::*;

use crate::error::{ErrorModel, TsqlError};
use crate::parser::stream::raw_tables_view;
use crate::parser::types::{
    capitalize, capitalized, fk_targets, FieldType, RawDataType, RawField,
    RawFieldModel, RawTable,
    RawTableModel, RawTypeModel,
};
use crate::text::chars_of;
use crate::types::{
    fields_model, find_field, find_field_index, find_table, names_view, DataType,
    Field, FieldModel, Table, TableCollection, TableExtra, TableModel,
};

verus! {

/// Lexicographic order of names, character by character.
pub open spec fn name_lt(a: Seq<char>, b: Seq<char>) -> bool
    decreases a.len(),
{
    if b.len() == 0 {
        false
    } else if a.len() == 0 {
        true
    } else if a[0] != b[0] {
        (a[0] as u32) < (b[0] as u32)
    } else {
        name_lt(a.drop_first(), b.drop_first())
    }
}

/// Whether `a` comes before `b` in lexicographic order.
pub fn less_than(a: &String, b: &String) -> (r: bool)
    ensures
        r == name_lt(a@, b@),
{
    let ca = chars_of(a.as_str());
    let cb = chars_of(b.as_str());
    let mut k: usize = 0;
    assert(ca@.subrange(0, ca@.len() as int) =~= ca@);
    assert(cb@.subrange(0, cb@.len() as int) =~= cb@);
    loop
        invariant
            k <= ca@.len(),
            k <= cb@.len(),
            ca@ == a@,
            cb@ == b@,
            name_lt(a@, b@) == name_lt(
                ca@.subrange(k as int, ca@.len() as int),
                cb@.subrange(k as int, cb@.len() as int),
            ),
        decreases ca@.len() - k,
    {
        let ghost ra = ca@.subrange(k as int, ca@.len() as int);
        let ghost rb = cb@.subrange(k as int, cb@.len() as int);
        if k == cb.len() {
            return false;
        }
        if k == ca.len() {
            return true;
        }
        assert(ra[0] == ca@[k as int] && rb[0] == cb@[k as int]);
        if ca[k] != cb[k] {
            return (ca[k] as u32) < (cb[k] as u32);
        }
        assert(ra.drop_first() =~= ca@.subrange(k + 1, ca@.len() as int));
        assert(rb.drop_first() =~= cb@.subrange(k + 1, cb@.len() as int));
        k = k + 1;
    }
}

/// `t` inserted before the first table whose name comes after its own.
pub open spec fn insert_raw(q: Seq<RawTableModel>, t: RawTableModel) -> Seq<RawTableModel>
    decreases q.len(),
{
    if q.len() == 0 {
        seq![t]
    } else if name_lt(t.name, q[0].name) {
        seq![t] + q
    } else {
        seq![q[0]] + insert_raw(q.drop_first(), t)
    }
}

/// The raw tables ordered by name (stable for equal names).
pub open spec fn sort_raw(ts: Seq<RawTableModel>) -> Seq<RawTableModel>
    decreases ts.len(),
{
    if ts.len() == 0 {
        seq![]
    } else {
        insert_raw(sort_raw(ts.drop_last()), ts.last())
    }
}

/// `t` inserted before the first table whose name comes after its own.
pub open spec fn insert_table(c: Seq<TableModel>, t: TableModel) -> Seq<TableModel>
    decreases c.len(),
{
    if c.len() == 0 {
        seq![t]
    } else if name_lt(t.name, c[0].name) {
        seq![t] + c
    } else {
        seq![c[0]] + insert_table(c.drop_first(), t)
    }
}

pub(crate) proof fn lemma_insert_raw_at(q: Seq<RawTableModel>, t: RawTableModel, p: int)
    requires
        0 <= p <= q.len(),
        forall|j: int| 0 <= j < p ==> !name_lt(t.name, #[trigger] q[j].name),
        p == q.len() || name_lt(t.name, q[p].name),
    ensures
        insert_raw(q, t) == q.insert(p, t),
    decreases q.len(),
{
    if p == 0 {
        if q.len() == 0 {
            assert(seq![t] =~= q.insert(0, t));
        } else {
            assert(seq![t] + q =~= q.insert(0, t));
        }
    } else {
        assert(!name_lt(t.name, q[0].name));
        let r = q.drop_first();
        assert forall|j: int| 0 <= j < p - 1 implies !name_lt(t.name, #[trigger] r[j].name) by {
            assert(r[j] == q[j + 1]);
        }
        lemma_insert_raw_at(r, t, p - 1);
        assert(seq![q[0]] + r.insert(p - 1, t) =~= q.insert(p, t));
    }
}

pub(crate) proof fn lemma_insert_table_at(c: Seq<TableModel>, t: TableModel, p: int)
    requires
        0 <= p <= c.len(),
        forall|j: int| 0 <= j < p ==> !name_lt(t.name, #[trigger] c[j].name),
        p == c.len() || name_lt(t.name, c[p].name),
    ensures
        insert_table(c, t) == c.insert(p, t),
    decreases c.len(),
{
    if p == 0 {
        if c.len() == 0 {
            assert(seq![t] =~= c.insert(0, t));
        } else {
            assert(seq![t] + c =~= c.insert(0, t));
        }
    } else {
        assert(!name_lt(t.name, c[0].name));
        let r = c.drop_first();
        assert forall|j: int| 0 <= j < p - 1 implies !name_lt(t.name, #[trigger] r[j].name) by {
            assert(r[j] == c[j + 1]);
        }
        lemma_insert_table_at(r, t, p - 1);
        assert(seq![c[0]] + r.insert(p - 1, t) =~= c.insert(p, t));
    }
}

/// Inserts `t` into `q` as `insert_raw` says.
fn insert_raw_sorted(q: &mut Vec<RawTable>, t: RawTable)
    ensures
        raw_tables_view(final(q)@) == insert_raw(raw_tables_view(old(q)@), t@),
{
    let ghost qv = raw_tables_view(q@);
    let mut p: usize = 0;
    while p < q.len() && !less_than(&t.name, &q[p].name)
        invariant
            p <= q@.len(),
            qv == raw_tables_view(q@),
            qv == raw_tables_view(old(q)@),
            forall|j: int| 0 <= j < p ==> !name_lt(t@.name, #[trigger] qv[j].name),
        decreases q@.len() - p,
    {
        p = p + 1;
    }
    proof {
        lemma_insert_raw_at(qv, t@, p as int);
    }
    let ghost tv = t@;
    q.insert(p, t);
    assert(raw_tables_view(q@) =~= qv.insert(p as int, tv));
}

/// Inserts `t` into the collection as `insert_table` says.
fn insert_table_sorted(c: &mut TableCollection, t: Table)
    ensures
        final(c)@ == insert_table(old(c)@, t@),
{
    let ghost cv = c@;
    let mut p: usize = 0;
    while p < c.tables.len() && !less_than(&t.name, &c.tables[p].name)
        invariant
            p <= c@.len(),
            cv == c@,
            cv == old(c)@,
            forall|j: int| 0 <= j < p ==> !name_lt(t@.name, #[trigger] cv[j].name),
        decreases c@.len() - p,
    {
        p = p + 1;
    }
    proof {
        lemma_insert_table_at(cv, t@, p as int);
    }
    let ghost tv = t@;
    c.tables.insert(p, t);
    assert(c@ =~= cv.insert(p as int, tv));
}

/// The raw tables ordered by name.
fn sort_raw_tables(ts: Vec<RawTable>) -> (r: Vec<RawTable>)
    ensures
        raw_tables_view(r@) == sort_raw(raw_tables_view(ts@)),
{
    let ghost all = raw_tables_view(ts@);
    let mut rest = ts;
    let mut out: Vec<RawTable> = Vec::new();
    let total = rest.len();
    let mut k: usize = 0;
    assert(raw_tables_view(out@) =~= sort_raw(all.subrange(0, 0)));
    while rest.len() > 0
        invariant
            k + rest@.len() == total,
            total == all.len(),
            raw_tables_view(rest@) == all.subrange(k as int, total as int),
            raw_tables_view(out@) == sort_raw(all.subrange(0, k as int)),
        decreases rest@.len(),
    {
        let ghost before = rest@;
        let t = rest.remove(0);
        assert(t@ == raw_tables_view(before)[0]);
        assert forall|j: int| 0 <= j < rest@.len() implies #[trigger] raw_tables_view(rest@)[j]
            == all.subrange(k + 1, total as int)[j] by {
            assert(rest@[j] == before[j + 1]);
            assert(raw_tables_view(before)[j + 1] == all.subrange(k as int, total as int)[j + 1]);
        }
        assert(raw_tables_view(rest@) =~= all.subrange(k + 1, total as int));
        assert(all.subrange(0, k + 1).drop_last() =~= all.subrange(0, k as int));
        assert(all.subrange(0, k + 1).last() == t@);
        insert_raw_sorted(&mut out, t);
        k = k + 1;
    }
    assert(all.subrange(0, k as int) =~= all);
    out
}

/// The first of `targets` that is not among `names`.
pub open spec fn missing_target(targets: Seq<Seq<char>>, names: Seq<Seq<char>>) -> Option<
    Seq<char>,
>
    decreases targets.len(),
{
    if targets.len() == 0 {
        None
    } else if !names.contains(targets[0]) {
        Some(targets[0])
    } else {
        missing_target(targets.drop_first(), names)
    }
}

pub open spec fn raw_names(ts: Seq<RawTableModel>) -> Seq<Seq<char>> {
    ts.map_values(|t: RawTableModel| t.name)
}

/// The first table, with the first table it refers to, that is not among `names`.
pub open spec fn first_unresolved(ts: Seq<RawTableModel>, names: Seq<Seq<char>>) -> Option<
    (Seq<char>, Seq<char>),
>
    decreases ts.len(),
{
    if ts.len() == 0 {
        None
    } else {
        match missing_target(fk_targets(ts[0].fields), names) {
            Some(x) => Some((ts[0].name, x)),
            None => first_unresolved(ts.drop_first(), names),
        }
    }
}

/// Every one of `targets` is among `names`.
pub open spec fn all_in(targets: Seq<Seq<char>>, names: Seq<Seq<char>>) -> bool {
    forall|i: int| 0 <= i < targets.len() ==> names.contains(#[trigger] targets[i])
}

/// The dependency order: take the first waiting table; it follows the ordered
/// ones if every table it refers to is among them, else it waits again at the
/// back. After `stall` tables in a row had to wait, and all of them did, the
/// waiting tables form a cycle.
pub open spec fn order_tables(queue: Seq<RawTableModel>, order: Seq<RawTableModel>, stall: nat) -> Result<
    Seq<RawTableModel>,
    ErrorModel,
>
    decreases queue.len(), queue.len() - stall,
{
    if queue.len() == 0 {
        Ok(order)
    } else if stall >= queue.len() {
        Err(ErrorModel::Cycle(raw_names(queue)))
    } else {
        let t = queue[0];
        if all_in(fk_targets(t.fields), raw_names(order)) {
            order_tables(queue.drop_first(), order.push(t), 0)
        } else {
            order_tables(queue.drop_first().push(t), order, stall + 1)
        }
    }
}

/// The columns that stand for a foreign key to table `tname`, one for each
/// primary-key name in `keys`, named `<prefix>_<column>`.
pub open spec fn expand_keys(prefix: Seq<char>, tname: Seq<char>, target: TableModel, keys: Seq<Seq<char>>) -> Result<
    Seq<FieldModel>,
    ErrorModel,
>
    decreases keys.len(),
{
    if keys.len() == 0 {
        Ok(seq![])
    } else {
        match expand_keys(prefix, tname, target, keys.drop_last()) {
            Err(e) => Err(e),
            Ok(prev) => match find_field(target.fields, keys.last()) {
                None => Err(ErrorModel::MissingPk(tname, keys.last())),
                Some(pk) => Ok(
                    prev.push(
                        FieldModel {
                            name: prefix + seq!['_'] + pk.name,
                            datatype: pk.datatype,
                            reference: Some((tname, Box::new(pk))),
                        },
                    ),
                ),
            },
        }
    }
}

/// The resolved columns of one raw field of table `tname`. A foreign key must
/// name its table: a `_` left open is no type.
pub open spec fn new_columns(tname: Seq<char>, f: RawFieldModel, c: Seq<TableModel>) -> Result<
    Seq<FieldModel>,
    ErrorModel,
> {
    if !f.foreign_key {
        match f.datatype {
            RawTypeModel::Known(d) => Ok(seq![FieldModel { name: f.name, datatype: d, reference: None }]),
            _ => Err(ErrorModel::UnknownType(tname, f.name)),
        }
    } else {
        match f.datatype {
            RawTypeModel::ForeignKeyTable(t) => match find_table(c, t) {
                None => Err(ErrorModel::Unresolved(tname, t)),
                Some(tm) => expand_keys(f.name, t, tm, tm.primary_key),
            },
            _ => Err(ErrorModel::UnknownType(tname, f.name)),
        }
    }
}

/// `acc` with `cols` appended, where no column may repeat a name.
pub open spec fn add_columns(tname: Seq<char>, acc: Seq<FieldModel>, cols: Seq<FieldModel>) -> Result<
    Seq<FieldModel>,
    ErrorModel,
>
    decreases cols.len(),
{
    if cols.len() == 0 {
        Ok(acc)
    } else {
        match add_columns(tname, acc, cols.drop_last()) {
            Err(e) => Err(e),
            Ok(prev) => if find_field(prev, cols.last().name) is Some {
                Err(ErrorModel::Duplicate(tname, cols.last().name))
            } else {
                Ok(prev.push(cols.last()))
            },
        }
    }
}

/// The resolved columns of the raw fields `fs` of table `tname`, in order.
pub open spec fn resolve_fields(tname: Seq<char>, fs: Seq<RawFieldModel>, c: Seq<TableModel>) -> Result<
    Seq<FieldModel>,
    ErrorModel,
>
    decreases fs.len(),
{
    if fs.len() == 0 {
        Ok(seq![])
    } else {
        match resolve_fields(tname, fs.drop_last(), c) {
            Err(e) => Err(e),
            Ok(prev) => match new_columns(tname, fs.last(), c) {
                Err(e) => Err(e),
                Ok(cols) => add_columns(tname, prev, cols),
            },
        }
    }
}

/// The first primary-key name that names none of the fields.
pub open spec fn missing_pk(fields: Seq<FieldModel>, pk: Seq<Seq<char>>) -> Option<Seq<char>>
    decreases pk.len(),
{
    if pk.len() == 0 {
        None
    } else {
        match missing_pk(fields, pk.drop_last()) {
            Some(m) => Some(m),
            None => if find_field(fields, pk.last()) is Some {
                None
            } else {
                Some(pk.last())
            },
        }
    }
}

/// A raw table resolved against the tables resolved before it.
pub open spec fn resolve_table(r: RawTableModel, c: Seq<TableModel>) -> Result<TableModel, ErrorModel> {
    match resolve_fields(r.name, r.fields, c) {
        Err(e) => Err(e),
        Ok(fs) => match missing_pk(fs, r.primary_key) {
            Some(m) => Err(ErrorModel::MissingPk(r.name, m)),
            None => Ok(TableModel { name: r.name, fields: fs, primary_key: r.primary_key }),
        },
    }
}

/// The tables of `order` resolved one after the other into the collection `c`.
pub open spec fn resolve_in_order(order: Seq<RawTableModel>, c: Seq<TableModel>) -> Result<
    Seq<TableModel>,
    ErrorModel,
>
    decreases order.len(),
{
    if order.len() == 0 {
        Ok(c)
    } else {
        match resolve_table(order[0], c) {
            Err(e) => Err(e),
            Ok(t) => resolve_in_order(order.drop_first(), insert_table(c, t)),
        }
    }
}

/// The resolved collection of a set of raw tables, or the first error.
pub open spec fn resolve_spec(raw: Seq<RawTableModel>) -> Result<Seq<TableModel>, ErrorModel> {
    let queue = sort_raw(infer_targets(raw));
    match first_unresolved(queue, raw_names(queue)) {
        Some((t, x)) => Err(ErrorModel::Unresolved(t, x)),
        None => match order_tables(queue, seq![], 0) {
            Err(e) => Err(e),
            Ok(order) => resolve_in_order(order, seq![]),
        },
    }
}

/// The names among `names` other than `own`, in order.
pub open spec fn other_names(names: Seq<Seq<char>>, own: Seq<char>) -> Seq<Seq<char>>
    decreases names.len(),
{
    if names.len() == 0 {
        seq![]
    } else {
        let prev = other_names(names.drop_last(), own);
        if names.last() == own {
            prev
        } else {
            prev.push(names.last())
        }
    }
}

/// The table that a foreign key of type `_`, a field `field` of table `own`,
/// refers to: the table named after the field (its first letter made upper
/// case) where one is declared; else the one other declared table, where there
/// is exactly one; else the name after the field, which is then unresolved.
pub open spec fn open_target(field: Seq<char>, own: Seq<char>, names: Seq<Seq<char>>) -> Seq<char> {
    let cap = capitalized(field);
    if names.contains(cap) {
        cap
    } else if other_names(names, own).len() == 1 {
        other_names(names, own)[0]
    } else {
        cap
    }
}

/// A field of table `own` with the target of a `_` foreign key filled in.
pub open spec fn infer_field(f: RawFieldModel, own: Seq<char>, names: Seq<Seq<char>>) -> RawFieldModel {
    if f.foreign_key && f.datatype is Unknown {
        RawFieldModel {
            name: f.name,
            datatype: RawTypeModel::ForeignKeyTable(open_target(f.name, own, names)),
            foreign_key: true,
        }
    } else {
        f
    }
}

pub open spec fn infer_table(t: RawTableModel, names: Seq<Seq<char>>) -> RawTableModel {
    RawTableModel {
        name: t.name,
        primary_key: t.primary_key,
        fields: t.fields.map_values(|f: RawFieldModel| infer_field(f, t.name, names)),
    }
}

/// The declared tables with the target of every `_` foreign key filled in.
pub open spec fn infer_targets(raw: Seq<RawTableModel>) -> Seq<RawTableModel> {
    raw.map_values(|t: RawTableModel| infer_table(t, raw_names(raw)))
}

/// The names of `names` other than `own`.
fn other_table_names(names: &Vec<String>, own: &String) -> (r: Vec<String>)
    ensures
        names_view(r@) == other_names(names_view(names@), own@),
{
    let ghost nv = names_view(names@);
    let mut out: Vec<String> = Vec::new();
    let mut k: usize = 0;
    assert(nv.subrange(0, 0) =~= Seq::<Seq<char>>::empty());
    while k < names.len()
        invariant
            k <= names@.len(),
            nv == names_view(names@),
            names_view(out@) == other_names(nv.subrange(0, k as int), own@),
        decreases names@.len() - k,
    {
        let ghost sub = nv.subrange(0, k + 1);
        assert(sub.drop_last() =~= nv.subrange(0, k as int));
        assert(sub.last() == names@[k as int]@);
        if names[k] != *own {
            let ghost before = out@;
            let x = names[k].clone();
            out.push(x);
            assert(names_view(out@) =~= names_view(before).push(x@));
        }
        k = k + 1;
    }
    assert(nv.subrange(0, k as int) =~= nv);
    out
}

/// The table that a `_` foreign key refers to, as `open_target` says.
fn open_target_exec(field: &String, own: &String, names: &Vec<String>) -> (r: String)
    ensures
        r@ == open_target(field@, own@, names_view(names@)),
{
    let cap = capitalize(field);
    if contains_name(names, &cap) {
        cap
    } else {
        let others = other_table_names(names, own);
        if others.len() == 1 {
            others[0].clone()
        } else {
            cap
        }
    }
}

/// The declared tables with the target of every `_` foreign key filled in.
fn infer_fk_targets(raw: Vec<RawTable>) -> (r: Vec<RawTable>)
    ensures
        raw_tables_view(r@) == infer_targets(raw_tables_view(raw@)),
{
    let names = raw_table_names(&raw);
    let ghost all = raw_tables_view(raw@);
    let ghost nv = raw_names(all);
    let mut rest = raw;
    let mut out: Vec<RawTable> = Vec::new();
    let total = rest.len();
    let mut k: usize = 0;
    assert(raw_tables_view(out@) =~= infer_targets(all).subrange(0, 0));
    while rest.len() > 0
        invariant
            k + rest@.len() == total,
            total == all.len(),
            names_view(names@) == nv,
            nv == raw_names(all),
            raw_tables_view(rest@) == all.subrange(k as int, total as int),
            raw_tables_view(out@) == infer_targets(all).subrange(0, k as int),
        decreases rest@.len(),
    {
        let ghost before = rest@;
        let t = rest.remove(0);
        assert(t@ == raw_tables_view(before)[0]);
        assert(t@ == all[k as int]);
        assert forall|j: int| 0 <= j < rest@.len() implies #[trigger] raw_tables_view(rest@)[j]
            == all.subrange(k + 1, total as int)[j] by {
            assert(rest@[j] == before[j + 1]);
            assert(raw_tables_view(before)[j + 1] == all.subrange(k as int, total as int)[j + 1]);
        }
        assert(raw_tables_view(rest@) =~= all.subrange(k + 1, total as int));
        let RawTable { extra: textra, name: tname, fields } = t;
        let ghost fv = crate::parser::types::raw_fields_view(fields@);
        let mut fs = fields;
        let mut new_fields: Vec<FieldType> = Vec::new();
        let ftotal = fs.len();
        let mut m: usize = 0;
        assert(crate::parser::types::raw_fields_view(new_fields@) =~= Seq::<RawFieldModel>::empty());
        while fs.len() > 0
            invariant
                m + fs@.len() == ftotal,
                ftotal == fv.len(),
                names_view(names@) == nv,
                crate::parser::types::raw_fields_view(fs@) == fv.subrange(m as int, ftotal as int),
                crate::parser::types::raw_fields_view(new_fields@) == fv.subrange(0, m as int).map_values(
                    |f: RawFieldModel| infer_field(f, tname@, nv),
                ),
            decreases fs@.len(),
        {
            let ghost fb = fs@;
            let f = fs.remove(0);
            assert(f@ == crate::parser::types::raw_fields_view(fb)[0]);
            assert(f@ == fv[m as int]);
            assert forall|j: int| 0 <= j < fs@.len() implies #[trigger] crate::parser::types::raw_fields_view(fs@)[j]
                == fv.subrange(m + 1, ftotal as int)[j] by {
                assert(fs@[j] == fb[j + 1]);
                assert(crate::parser::types::raw_fields_view(fb)[j + 1] == fv.subrange(m as int, ftotal as int)[j + 1]);
            }
            assert(crate::parser::types::raw_fields_view(fs@) =~= fv.subrange(m + 1, ftotal as int));
            let g = match f {
                FieldType::Virtual((rf, fx)) => match rf.datatype {
                    RawDataType::Unknown => {
                        let target = open_target_exec(&rf.name, &tname, &names);
                        FieldType::Virtual(
                            (RawField { name: rf.name, datatype: RawDataType::ForeignKeyTable(target) }, fx),
                        )
                    },
                    other => FieldType::Virtual((RawField { name: rf.name, datatype: other }, fx)),
                },
                FieldType::Real(rf) => FieldType::Real(rf),
            };
            assert(g@ == infer_field(fv[m as int], tname@, nv));
            let ghost nb = crate::parser::types::raw_fields_view(new_fields@);
            new_fields.push(g);
            assert(crate::parser::types::raw_fields_view(new_fields@) =~= nb.push(g@));
            assert(fv.subrange(0, m + 1).map_values(|f: RawFieldModel| infer_field(f, tname@, nv))
                =~= fv.subrange(0, m as int).map_values(|f: RawFieldModel| infer_field(f, tname@, nv)).push(
                infer_field(fv[m as int], tname@, nv),
            ));
            m = m + 1;
        }
        assert(fv.subrange(0, m as int) =~= fv);
        let nt = RawTable { extra: textra, name: tname, fields: new_fields };
        assert(nt@ == infer_table(all[k as int], nv));
        let ghost ob = raw_tables_view(out@);
        out.push(nt);
        assert(raw_tables_view(out@) =~= ob.push(nt@));
        assert(infer_targets(all).subrange(0, k + 1) =~= infer_targets(all).subrange(0, k as int).push(
            infer_table(all[k as int], nv),
        ));
        k = k + 1;
    }
    assert(infer_targets(all).subrange(0, k as int) =~= infer_targets(all));
    out
}

/// Whether `x` is among `names`.
pub(crate) fn contains_name(names: &Vec<String>, x: &String) -> (r: bool)
    ensures
        r == names_view(names@).contains(x@),
{
    let mut k: usize = 0;
    while k < names.len()
        invariant
            k <= names@.len(),
            forall|j: int| 0 <= j < k ==> names_view(names@)[j] != x@,
        decreases names@.len() - k,
    {
        if names[k] == *x {
            assert(names_view(names@)[k as int] == x@);
            return true;
        }
        k = k + 1;
    }
    false
}

/// A copy of a list of names.
pub fn clone_names(v: &Vec<String>) -> (r: Vec<String>)
    ensures
        names_view(r@) == names_view(v@),
{
    let mut out: Vec<String> = Vec::new();
    let mut k: usize = 0;
    while k < v.len()
        invariant
            k <= v@.len(),
            names_view(out@) == names_view(v@).subrange(0, k as int),
        decreases v@.len() - k,
    {
        let ghost before = out@;
        let x = v[k].clone();
        out.push(x);
        assert(names_view(out@) =~= names_view(before).push(x@));
        assert(names_view(out@) =~= names_view(v@).subrange(0, k + 1));
        k = k + 1;
    }
    assert(names_view(v@).subrange(0, k as int) =~= names_view(v@));
    out
}

/// The names of the raw tables.
fn raw_table_names(ts: &Vec<RawTable>) -> (r: Vec<String>)
    ensures
        names_view(r@) == raw_names(raw_tables_view(ts@)),
{
    let mut out: Vec<String> = Vec::new();
    let mut k: usize = 0;
    while k < ts.len()
        invariant
            k <= ts@.len(),
            names_view(out@) == raw_names(raw_tables_view(ts@)).subrange(0, k as int),
        decreases ts@.len() - k,
    {
        let ghost before = out@;
        let x = ts[k].name.clone();
        out.push(x);
        assert(names_view(out@) =~= names_view(before).push(x@));
        assert(raw_tables_view(ts@)[k as int].name == x@);
        assert(names_view(out@) =~= raw_names(raw_tables_view(ts@)).subrange(0, k + 1));
        k = k + 1;
    }
    assert(raw_names(raw_tables_view(ts@)).subrange(0, k as int) =~= raw_names(raw_tables_view(ts@)));
    out
}

/// The first of `targets` missing from `names`.
fn find_missing(targets: &Vec<String>, names: &Vec<String>) -> (r: Option<String>)
    ensures
        r matches Some(x) ==> missing_target(names_view(targets@), names_view(names@)) == Some(x@),
        r is None ==> missing_target(names_view(targets@), names_view(names@)) is None,
{
    let ghost tv = names_view(targets@);
    let ghost nv = names_view(names@);
    assert(tv.subrange(0, tv.len() as int) =~= tv);
    let mut k: usize = 0;
    while k < targets.len()
        invariant
            k <= targets@.len(),
            tv == names_view(targets@),
            nv == names_view(names@),
            missing_target(tv, nv) == missing_target(tv.subrange(k as int, tv.len() as int), nv),
        decreases targets@.len() - k,
    {
        let ghost rest = tv.subrange(k as int, tv.len() as int);
        assert(rest[0] == targets@[k as int]@);
        if !contains_name(names, &targets[k]) {
            return Some(targets[k].clone());
        }
        assert(rest.drop_first() =~= tv.subrange(k + 1, tv.len() as int));
        k = k + 1;
    }
    None
}

/// The first table of `ts` that refers to a table not among `ts`.
fn find_unresolved(ts: &Vec<RawTable>) -> (r: Option<(String, String)>)
    ensures
        r matches Some((t, x)) ==> first_unresolved(raw_tables_view(ts@), raw_names(raw_tables_view(ts@)))
            == Some((t@, x@)),
        r is None ==> first_unresolved(raw_tables_view(ts@), raw_names(raw_tables_view(ts@))) is None,
{
    let names = raw_table_names(ts);
    let ghost all = raw_tables_view(ts@);
    let ghost nv = raw_names(all);
    assert(all.subrange(0, all.len() as int) =~= all);
    let mut k: usize = 0;
    while k < ts.len()
        invariant
            k <= ts@.len(),
            all == raw_tables_view(ts@),
            nv == raw_names(all),
            names_view(names@) == nv,
            first_unresolved(all, nv) == first_unresolved(all.subrange(k as int, all.len() as int), nv),
        decreases ts@.len() - k,
    {
        let ghost rest = all.subrange(k as int, all.len() as int);
        assert(rest[0] == ts@[k as int]@);
        let targets = ts[k].fk_tables();
        match find_missing(&targets, &names) {
            Some(x) => {
                return Some((ts[k].name.clone(), x));
            },
            None => {},
        }
        assert(rest.drop_first() =~= all.subrange(k + 1, all.len() as int));
        k = k + 1;
    }
    None
}

/// Whether every one of `targets` is among `names`.
fn all_contained(targets: &Vec<String>, names: &Vec<String>) -> (r: bool)
    ensures
        r == all_in(names_view(targets@), names_view(names@)),
{
    let mut k: usize = 0;
    while k < targets.len()
        invariant
            k <= targets@.len(),
            forall|i: int| 0 <= i < k ==> names_view(names@).contains(#[trigger] names_view(targets@)[i]),
        decreases targets@.len() - k,
    {
        if !contains_name(names, &targets[k]) {
            assert(!names_view(names@).contains(names_view(targets@)[k as int]));
            return false;
        }
        k = k + 1;
    }
    true
}

/// Orders the tables so that each follows the tables it refers to.
pub fn order_raw_tables(pending: Vec<RawTable>) -> (r: Result<Vec<RawTable>, TsqlError>)
    ensures
        r matches Ok(order) ==> order_tables(raw_tables_view(pending@), seq![], 0) == Ok::<
            Seq<RawTableModel>,
            ErrorModel,
        >(raw_tables_view(order@)),
        r matches Err(e) ==> order_tables(raw_tables_view(pending@), seq![], 0) == Err::<
            Seq<RawTableModel>,
            ErrorModel,
        >(e@),
{
    let ghost q0 = raw_tables_view(pending@);
    let mut queue = pending;
    let mut order: Vec<RawTable> = Vec::new();
    let mut order_names: Vec<String> = Vec::new();
    let mut stall: usize = 0;
    assert(raw_tables_view(order@) =~= Seq::<RawTableModel>::empty());
    loop
        invariant
            q0 == raw_tables_view(pending@),
            order_tables(q0, seq![], 0) == order_tables(
                raw_tables_view(queue@),
                raw_tables_view(order@),
                stall as nat,
            ),
            names_view(order_names@) == raw_names(raw_tables_view(order@)),
            stall <= queue@.len(),
        decreases queue@.len(), queue@.len() - stall,
    {
        if queue.len() == 0 {
            return Ok(order);
        }
        if stall >= queue.len() {
            let names = raw_table_names(&queue);
            return Err(TsqlError::ForeignKeyCycle(names));
        }
        let ghost qv = raw_tables_view(queue@);
        let ghost ov = raw_tables_view(order@);
        let t = queue.remove(0);
        assert(t@ == qv[0]);
        assert(raw_tables_view(queue@) =~= qv.drop_first());
        let targets = t.fk_tables();
        if all_contained(&targets, &order_names) {
            let ghost nb = order_names@;
            let x = t.name.clone();
            order_names.push(x);
            assert(names_view(order_names@) =~= names_view(nb).push(x@));
            order.push(t);
            assert(raw_tables_view(order@) =~= ov.push(qv[0]));
            assert(names_view(order_names@) =~= raw_names(raw_tables_view(order@)));
            stall = 0;
        } else {
            queue.push(t);
            assert(raw_tables_view(queue@) =~= qv.drop_first().push(qv[0]));
            stall = stall + 1;
        }
    }
}

/// The columns of the foreign-key field `rf` of table `tname`, which refers to `target`.
fn expand_foreign_key(rf_name: &String, target_name: &String, target: &Table) -> (r: Result<
    Vec<Field>,
    TsqlError,
>)
    ensures
        r matches Ok(cols) ==> expand_keys(rf_name@, target_name@, target@, target@.primary_key)
            == Ok::<Seq<FieldModel>, ErrorModel>(fields_model(cols@)),
        r matches Err(e) ==> expand_keys(rf_name@, target_name@, target@, target@.primary_key)
            == Err::<Seq<FieldModel>, ErrorModel>(e@),
{
    let keys = &target.extra.primary_key;
    let ghost kv = target@.primary_key;
    let mut cols: Vec<Field> = Vec::new();
    let mut k: usize = 0;
    assert(fields_model(cols@) =~= Seq::<FieldModel>::empty());
    assert(kv.subrange(0, 0) =~= Seq::<Seq<char>>::empty());
    while k < keys.len()
        invariant
            k <= keys@.len(),
            kv == names_view(keys@),
            keys == &target.extra.primary_key,
            expand_keys(rf_name@, target_name@, target@, kv.subrange(0, k as int)) == Ok::<
                Seq<FieldModel>,
                ErrorModel,
            >(fields_model(cols@)),
        decreases keys@.len() - k,
    {
        assert(kv.subrange(0, k + 1).drop_last() =~= kv.subrange(0, k as int));
        assert(kv.subrange(0, k + 1).last() == keys@[k as int]@);
        match find_field_index(&target.fields, &keys[k]) {
            None => {
                proof {
                    lemma_expand_keys_err(rf_name@, target_name@, target@, kv, k as int + 1);
                }
                return Err(TsqlError::MissingPrimaryKeyField(target_name.clone(), keys[k].clone()));
            },
            Some(j) => {
                let pk = &target.fields[j];
                let mut name = rf_name.clone();
                name.push('_');
                name.push_str(pk.name.as_str());
                let col = Field {
                    name,
                    datatype: pk.datatype,
                    foreign_key_reference: Some((target_name.clone(), Box::new(pk.snapshot()))),
                };
                let ghost before = cols@;
                assert(col@.name =~= rf_name@ + seq!['_'] + pk@.name);
                assert(col@.datatype == pk@.datatype);
                assert(col@.reference == Some((target_name@, Box::new(pk@))));
                assert(target@.fields[j as int] == pk@);
                cols.push(col);
                assert(fields_model(cols@) =~= fields_model(before).push(col@));
            },
        }
        k = k + 1;
    }
    assert(kv.subrange(0, k as int) =~= kv);
    Ok(cols)
}

proof fn lemma_expand_keys_err(prefix: Seq<char>, tname: Seq<char>, target: TableModel, keys: Seq<Seq<char>>, k: int)
    requires
        0 <= k <= keys.len(),
        expand_keys(prefix, tname, target, keys.subrange(0, k)) is Err,
    ensures
        expand_keys(prefix, tname, target, keys) == expand_keys(prefix, tname, target, keys.subrange(0, k)),
    decreases keys.len() - k,
{
    if k < keys.len() {
        assert(keys.subrange(0, k + 1).drop_last() =~= keys.subrange(0, k));
        lemma_expand_keys_err(prefix, tname, target, keys, k + 1);
    } else {
        assert(keys.subrange(0, k) =~= keys);
    }
}

/// The resolved columns of one raw field of table `tname`.
fn field_columns(tname: &String, f: &FieldType, c: &TableCollection) -> (r: Result<Vec<Field>, TsqlError>)
    ensures
        r matches Ok(cols) ==> new_columns(tname@, f@, c@) == Ok::<Seq<FieldModel>, ErrorModel>(
            fields_model(cols@),
        ),
        r matches Err(e) ==> new_columns(tname@, f@, c@) == Err::<Seq<FieldModel>, ErrorModel>(e@),
{
    match f {
        FieldType::Real(rf) => match DataType::parse(&rf.datatype) {
            Some(d) => {
                let mut cols: Vec<Field> = Vec::new();
                cols.push(Field { name: rf.name.clone(), datatype: d, foreign_key_reference: None });
                assert(fields_model(cols@) =~= seq![
                    FieldModel { name: rf.name@, datatype: d, reference: None },
                ]);
                Ok(cols)
            },
            None => Err(TsqlError::UnknownTypeInResolved(tname.clone(), rf.name.clone())),
        },
        FieldType::Virtual((rf, _)) => {
            let target = match &rf.datatype {
                RawDataType::ForeignKeyTable(t) => t.clone(),
                _ => {
                    return Err(TsqlError::UnknownTypeInResolved(tname.clone(), rf.name.clone()));
                },
            };
            match c.find_index(&target) {
                None => Err(TsqlError::UnresolvedForeignKey(tname.clone(), target)),
                Some(i) => expand_foreign_key(&rf.name, &target, &c.tables[i]),
            }
        },
    }
}

/// The first primary-key name that names none of the fields.
fn find_missing_pk(fields: &Vec<Field>, pk: &Vec<String>) -> (r: Option<String>)
    ensures
        r matches Some(m) ==> missing_pk(fields_model(fields@), names_view(pk@)) == Some(m@),
        r is None ==> missing_pk(fields_model(fields@), names_view(pk@)) is None,
{
    let ghost pv = names_view(pk@);
    let ghost fv = fields_model(fields@);
    let mut k: usize = 0;
    assert(pv.subrange(0, 0) =~= Seq::<Seq<char>>::empty());
    while k < pk.len()
        invariant
            k <= pk@.len(),
            pv == names_view(pk@),
            fv == fields_model(fields@),
            missing_pk(fv, pv.subrange(0, k as int)) is None,
        decreases pk@.len() - k,
    {
        assert(pv.subrange(0, k + 1).drop_last() =~= pv.subrange(0, k as int));
        assert(pv.subrange(0, k + 1).last() == pk@[k as int]@);
        match find_field_index(fields, &pk[k]) {
            None => {
                proof {
                    lemma_missing_pk_some(fv, pv, k as int + 1);
                }
                return Some(pk[k].clone());
            },
            Some(_) => {},
        }
        k = k + 1;
    }
    assert(pv.subrange(0, k as int) =~= pv);
    None
}

proof fn lemma_missing_pk_some(fields: Seq<FieldModel>, pk: Seq<Seq<char>>, k: int)
    requires
        0 <= k <= pk.len(),
        missing_pk(fields, pk.subrange(0, k)) is Some,
    ensures
        missing_pk(fields, pk) == missing_pk(fields, pk.subrange(0, k)),
    decreases pk.len() - k,
{
    if k < pk.len() {
        assert(pk.subrange(0, k + 1).drop_last() =~= pk.subrange(0, k));
        lemma_missing_pk_some(fields, pk, k + 1);
    } else {
        assert(pk.subrange(0, k) =~= pk);
    }
}

proof fn lemma_add_columns_err(tname: Seq<char>, acc: Seq<FieldModel>, cols: Seq<FieldModel>, k: int)
    requires
        0 <= k <= cols.len(),
        add_columns(tname, acc, cols.subrange(0, k)) is Err,
    ensures
        add_columns(tname, acc, cols) == add_columns(tname, acc, cols.subrange(0, k)),
    decreases cols.len() - k,
{
    if k < cols.len() {
        assert(cols.subrange(0, k + 1).drop_last() =~= cols.subrange(0, k));
        lemma_add_columns_err(tname, acc, cols, k + 1);
    } else {
        assert(cols.subrange(0, k) =~= cols);
    }
}

proof fn lemma_resolve_fields_err(tname: Seq<char>, fs: Seq<RawFieldModel>, c: Seq<TableModel>, k: int)
    requires
        0 <= k <= fs.len(),
        resolve_fields(tname, fs.subrange(0, k), c) is Err,
    ensures
        resolve_fields(tname, fs, c) == resolve_fields(tname, fs.subrange(0, k), c),
    decreases fs.len() - k,
{
    if k < fs.len() {
        assert(fs.subrange(0, k + 1).drop_last() =~= fs.subrange(0, k));
        lemma_resolve_fields_err(tname, fs, c, k + 1);
    } else {
        assert(fs.subrange(0, k) =~= fs);
    }
}

/// Appends `cols` to `fields`, refusing a name that is already there.
fn add_columns_exec(tname: &String, fields: &mut Vec<Field>, cols: Vec<Field>) -> (r: Result<(), TsqlError>)
    ensures
        r is Ok ==> add_columns(tname@, fields_model(old(fields)@), fields_model(cols@)) == Ok::<
            Seq<FieldModel>,
            ErrorModel,
        >(fields_model(final(fields)@)),
        r matches Err(e) ==> add_columns(tname@, fields_model(old(fields)@), fields_model(cols@))
            == Err::<Seq<FieldModel>, ErrorModel>(e@),
{
    let ghost acc0 = fields_model(fields@);
    let ghost cv = fields_model(cols@);
    let mut rest = cols;
    let total = rest.len();
    let mut k: usize = 0;
    assert(cv.subrange(0, 0) =~= Seq::<FieldModel>::empty());
    while rest.len() > 0
        invariant
            k + rest@.len() == total,
            total == cv.len(),
            fields_model(rest@) == cv.subrange(k as int, total as int),
            acc0 == fields_model(old(fields)@),
            cv == fields_model(cols@),
            add_columns(tname@, acc0, cv.subrange(0, k as int)) == Ok::<Seq<FieldModel>, ErrorModel>(
                fields_model(fields@),
            ),
        decreases rest@.len(),
    {
        let ghost before = rest@;
        let col = rest.remove(0);
        assert(col@ == fields_model(before)[0]);
        assert forall|j: int| 0 <= j < rest@.len() implies #[trigger] fields_model(rest@)[j]
            == cv.subrange(k + 1, total as int)[j] by {
            assert(rest@[j] == before[j + 1]);
            assert(fields_model(before)[j + 1] == cv.subrange(k as int, total as int)[j + 1]);
        }
        assert(fields_model(rest@) =~= cv.subrange(k + 1, total as int));
        assert(cv.subrange(0, k + 1).drop_last() =~= cv.subrange(0, k as int));
        assert(cv.subrange(0, k + 1).last() == col@);
        match find_field_index(fields, &col.name) {
            Some(_) => {
                assert(add_columns(tname@, acc0, cv.subrange(0, k + 1)) == Err::<Seq<FieldModel>, ErrorModel>(
                    ErrorModel::Duplicate(tname@, col@.name),
                ));
                proof {
                    lemma_add_columns_err(tname@, acc0, cv, k as int + 1);
                }
                return Err(TsqlError::DuplicateField(tname.clone(), col.name));
            },
            None => {
                let ghost fb = fields_model(fields@);
                let ghost colv = col@;
                fields.push(col);
                assert(fields_model(fields@) =~= fb.push(colv));
            },
        }
        k = k + 1;
    }
    assert(cv.subrange(0, k as int) =~= cv);
    Ok(())
}

impl Table {
    /// Resolves a raw table against the tables resolved before it.
    pub fn parse(raw: &RawTable, parsed_tables: &TableCollection) -> (r: Result<Table, TsqlError>)
        ensures
            r matches Ok(t) ==> resolve_table(raw@, parsed_tables@) == Ok::<TableModel, ErrorModel>(t@),
            r matches Err(e) ==> resolve_table(raw@, parsed_tables@) == Err::<TableModel, ErrorModel>(e@),
    {
        let ghost rv = raw@.fields;
        let ghost c = parsed_tables@;
        let mut fields: Vec<Field> = Vec::new();
        let mut k: usize = 0;
        assert(fields_model(fields@) =~= Seq::<FieldModel>::empty());
        assert(rv.subrange(0, 0) =~= Seq::<RawFieldModel>::empty());
        while k < raw.fields.len()
            invariant
                k <= raw.fields@.len(),
                rv == raw@.fields,
                c == parsed_tables@,
                resolve_fields(raw@.name, rv.subrange(0, k as int), c) == Ok::<
                    Seq<FieldModel>,
                    ErrorModel,
                >(fields_model(fields@)),
            decreases raw.fields@.len() - k,
        {
            assert(rv.subrange(0, k + 1).drop_last() =~= rv.subrange(0, k as int));
            assert(rv.subrange(0, k + 1).last() == raw.fields@[k as int]@);
            match field_columns(&raw.name, &raw.fields[k], parsed_tables) {
                Err(e) => {
                    proof {
                        lemma_resolve_fields_err(raw@.name, rv, c, k as int + 1);
                    }
                    return Err(e);
                },
                Ok(cols) => {
                    match add_columns_exec(&raw.name, &mut fields, cols) {
                        Err(e) => {
                            proof {
                                lemma_resolve_fields_err(raw@.name, rv, c, k as int + 1);
                            }
                            return Err(e);
                        },
                        Ok(()) => {},
                    }
                },
            }
            k = k + 1;
        }
        assert(rv.subrange(0, k as int) =~= rv);
        match find_missing_pk(&fields, &raw.extra.primary_key) {
            Some(m) => Err(TsqlError::MissingPrimaryKeyField(raw.name.clone(), m)),
            None => {
                let pk = clone_names(&raw.extra.primary_key);
                let t = Table { extra: TableExtra { primary_key: pk }, name: raw.name.clone(), fields };
                Ok(t)
            },
        }
    }

    /// Resolves all raw tables: orders them by their references, expands the
    /// foreign keys and checks the primary keys.
    pub fn parse_raw_tables(raw_tables: Vec<RawTable>) -> (r: Result<TableCollection, TsqlError>)
        ensures
            r matches Ok(c) ==> resolve_spec(raw_tables_view(raw_tables@)) == Ok::<
                Seq<TableModel>,
                ErrorModel,
            >(c@),
            r matches Err(e) ==> resolve_spec(raw_tables_view(raw_tables@)) == Err::<
                Seq<TableModel>,
                ErrorModel,
            >(e@),
    {
        let queue = sort_raw_tables(infer_fk_targets(raw_tables));
        match find_unresolved(&queue) {
            Some((t, x)) => {
                return Err(TsqlError::UnresolvedForeignKey(t, x));
            },
            None => {},
        }
        let order = match order_raw_tables(queue) {
            Ok(order) => order,
            Err(e) => {
                return Err(e);
            },
        };
        let ghost ov = raw_tables_view(order@);
        assert(resolve_spec(raw_tables_view(raw_tables@)) == resolve_in_order(ov, seq![]));
        let mut parsed = TableCollection::new();
        let mut k: usize = 0;
        assert(ov.subrange(0, ov.len() as int) =~= ov);
        assert(parsed@ =~= Seq::<TableModel>::empty());
        while k < order.len()
            invariant
                k <= order@.len(),
                ov == raw_tables_view(order@),
                resolve_spec(raw_tables_view(raw_tables@)) == resolve_in_order(ov, seq![]),
                resolve_in_order(ov, seq![]) == resolve_in_order(
                    ov.subrange(k as int, ov.len() as int),
                    parsed@,
                ),
            decreases order@.len() - k,
        {
            let ghost rest = ov.subrange(k as int, ov.len() as int);
            assert(rest[0] == order@[k as int]@);
            assert(rest.drop_first() =~= ov.subrange(k + 1, ov.len() as int));
            let t = match Table::parse(&order[k], &parsed) {
                Ok(t) => t,
                Err(e) => {
                    return Err(e);
                },
            };
            insert_table_sorted(&mut parsed, t);
            k = k + 1;
        }
        Ok(parsed)
    }
}

} // verus!
