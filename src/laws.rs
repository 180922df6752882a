//! Properties of the compiler as a whole, proved over the specifications
//! that the executable functions meet.
use vstd::prelude::*;

use crate::compile_spec;
use crate::error::ErrorModel;
use crate::emit::sql_collection;
use crate::parser::stream::{declares, raw_tables_spec, tables_from, unique_table_names};
use crate::parser::grammar::table_syntax;
use crate::parser::lexer::blank_end;
use crate::parser::types::{fk_targets, RawTableModel};
use crate::parser::types::{RawFieldModel, RawTypeModel};
use crate::resolve::{
    add_columns, expand_keys, insert_raw, insert_table, missing_pk, new_columns, order_tables,
    raw_names, resolve_fields, resolve_in_order, resolve_table, sort_raw,
};
use crate::types::{find_field, find_table, FieldModel, TableModel};

verus! {

/// Every table of the sequence refers only to tables that stand before it.
pub open spec fn references_precede(order: Seq<RawTableModel>) -> bool {
    forall|i: int, k: int|
        #![trigger fk_targets(order[i].fields)[k]]
        0 <= i < order.len() && 0 <= k < fk_targets(order[i].fields).len() ==> raw_names(
            order.subrange(0, i),
        ).contains(fk_targets(order[i].fields)[k])
}

proof fn lemma_order_tables_precede(queue: Seq<RawTableModel>, order: Seq<RawTableModel>, stall: nat)
    requires
        references_precede(order),
    ensures
        order_tables(queue, order, stall) matches Ok(res) ==> references_precede(res),
    decreases queue.len(), queue.len() - stall,
{
    if queue.len() == 0 {
    } else if stall >= queue.len() {
    } else {
        let t = queue[0];
        if crate::resolve::all_in(fk_targets(t.fields), raw_names(order)) {
            let o2 = order.push(t);
            assert forall|i: int, k: int|
                0 <= i < o2.len() && 0 <= k < fk_targets(o2[i].fields).len() implies raw_names(
                o2.subrange(0, i),
            ).contains(#[trigger] fk_targets(o2[i].fields)[k]) by {
                if i < order.len() {
                    assert(o2.subrange(0, i) =~= order.subrange(0, i));
                    assert(o2[i] == order[i]);
                    assert(raw_names(order.subrange(0, i)).contains(fk_targets(order[i].fields)[k]));
                } else {
                    assert(o2.subrange(0, i) =~= order);
                    assert(o2[i] == t);
                    assert(raw_names(order).contains(fk_targets(t.fields)[k]));
                }
            }
            lemma_order_tables_precede(queue.drop_first(), o2, 0);
        } else {
            lemma_order_tables_precede(queue.drop_first().push(t), order, stall + 1);
        }
    }
}

/// Dependency order: in the order in which the resolver takes the tables,
/// every table that a foreign key refers to comes before the referring table.
pub proof fn lemma_dependency_order(raw: Seq<RawTableModel>)
    ensures
        order_tables(sort_raw(crate::resolve::infer_targets(raw)), seq![], 0) matches Ok(order)
            ==> references_precede(order),
{
    assert(references_precede(Seq::<RawTableModel>::empty()));
    lemma_order_tables_precede(sort_raw(crate::resolve::infer_targets(raw)), seq![], 0);
}

/// Every primary-key name of the table names one of its fields.
pub open spec fn primary_key_present(t: TableModel) -> bool {
    forall|k: int| 0 <= k < t.primary_key.len() ==> (#[trigger] find_field(t.fields, t.primary_key[k])) is Some
}

proof fn lemma_missing_pk_none(fs: Seq<FieldModel>, pk: Seq<Seq<char>>)
    requires
        missing_pk(fs, pk) is None,
    ensures
        forall|k: int| 0 <= k < pk.len() ==> (#[trigger] find_field(fs, pk[k])) is Some,
    decreases pk.len(),
{
    if pk.len() > 0 {
        lemma_missing_pk_none(fs, pk.drop_last());
        assert forall|k: int| 0 <= k < pk.len() implies (#[trigger] find_field(fs, pk[k])) is Some by {
            if k < pk.len() - 1 {
                assert(pk[k] == pk.drop_last()[k]);
            }
        }
    }
}

proof fn lemma_resolve_table_pk(r: RawTableModel, c: Seq<TableModel>)
    ensures
        resolve_table(r, c) matches Ok(t) ==> primary_key_present(t),
{
    match crate::resolve::resolve_fields(r.name, r.fields, c) {
        Ok(fs) => {
            if missing_pk(fs, r.primary_key) is None {
                lemma_missing_pk_none(fs, r.primary_key);
            }
        },
        Err(_) => {},
    }
}

/// Inserting into a collection keeps what holds of all its tables.
proof fn lemma_insert_table_all(c: Seq<TableModel>, t: TableModel, p: spec_fn(TableModel) -> bool)
    requires
        forall|i: int| 0 <= i < c.len() ==> p(#[trigger] c[i]),
        p(t),
    ensures
        forall|i: int| 0 <= i < insert_table(c, t).len() ==> p(#[trigger] insert_table(c, t)[i]),
    decreases c.len(),
{
    if c.len() > 0 && !crate::resolve::name_lt(t.name, c[0].name) {
        let r = c.drop_first();
        assert forall|i: int| 0 <= i < r.len() implies p(#[trigger] r[i]) by {
            assert(r[i] == c[i + 1]);
        }
        lemma_insert_table_all(r, t, p);
        let s = insert_table(c, t);
        assert forall|i: int| 0 <= i < s.len() implies p(#[trigger] s[i]) by {
            if i > 0 {
                assert(s[i] == insert_table(r, t)[i - 1]);
            }
        }
    } else if c.len() > 0 {
        let s = insert_table(c, t);
        assert forall|i: int| 0 <= i < s.len() implies p(#[trigger] s[i]) by {
            if i > 0 {
                assert(s[i] == c[i - 1]);
            }
        }
    }
}

proof fn lemma_resolve_in_order_pk(order: Seq<RawTableModel>, c: Seq<TableModel>)
    requires
        forall|i: int| 0 <= i < c.len() ==> primary_key_present(#[trigger] c[i]),
    ensures
        resolve_in_order(order, c) matches Ok(res) ==> forall|i: int|
            0 <= i < res.len() ==> primary_key_present(#[trigger] res[i]),
    decreases order.len(),
{
    if order.len() > 0 {
        lemma_resolve_table_pk(order[0], c);
        match resolve_table(order[0], c) {
            Ok(t) => {
                let p = |x: TableModel| primary_key_present(x);
                assert forall|i: int| 0 <= i < c.len() implies p(#[trigger] c[i]) by {}
                lemma_insert_table_all(c, t, p);
                let c2 = insert_table(c, t);
                assert forall|i: int| 0 <= i < c2.len() implies primary_key_present(#[trigger] c2[i]) by {
                    assert(p(c2[i]));
                }
                lemma_resolve_in_order_pk(order.drop_first(), c2);
            },
            Err(_) => {},
        }
    }
}

/// Primary keys: in every table that a text compiles to, every name of the
/// primary key names one of the table's fields.
pub proof fn lemma_primary_keys_are_fields(text: Seq<char>)
    ensures
        compile_spec(text) matches Ok(c) ==> forall|i: int|
            0 <= i < c.len() ==> primary_key_present(#[trigger] c[i]),
{
    match raw_tables_spec(text) {
        Ok(raw) => {
            let queue = sort_raw(crate::resolve::infer_targets(raw));
            if crate::resolve::first_unresolved(queue, raw_names(queue)) is None {
                match order_tables(queue, seq![], 0) {
                    Ok(order) => {
                        lemma_resolve_in_order_pk(order, seq![]);
                    },
                    Err(_) => {},
                }
            }
        },
        Err(_) => {},
    }
}

/// Determinism: compiling a text twice gives the same tables, and so
/// byte-identical SQL.
pub proof fn lemma_compile_deterministic(a: Seq<char>, b: Seq<char>)
    requires
        a == b,
    ensures
        compile_spec(a) == compile_spec(b),
        compile_spec(a) matches Ok(c1) ==> (compile_spec(b) matches Ok(c2) && sql_collection(c1)
            == sql_collection(c2)),
{
}

/// A column that refers to table `r` with a copy `pk` of a column there: some
/// table of `c` is called `r`, has `pk`'s name in its primary key and `pk` as
/// its first column of that name, and the column is named `<v>_<pk>`.
pub open spec fn reference_ok(f: FieldModel, c: Seq<TableModel>) -> bool {
    match f.reference {
        None => true,
        Some((r, pk)) => (exists|j: int|
            0 <= j < c.len() && (#[trigger] c[j]).name == r && c[j].primary_key.contains(pk.name)
                && find_field(c[j].fields, pk.name) == Some(*pk))
            && (exists|v: Seq<char>| f.name == #[trigger] (v + seq!['_']) + pk.name),
    }
}

pub open spec fn references_ok(fs: Seq<FieldModel>, c: Seq<TableModel>) -> bool {
    forall|k: int| 0 <= k < fs.len() ==> reference_ok(#[trigger] fs[k], c)
}

proof fn lemma_found_table(c: Seq<TableModel>, name: Seq<char>)
    ensures
        find_table(c, name) matches Some(t) ==> t.name == name && c.contains(t),
    decreases c.len(),
{
    if c.len() > 0 && c[0].name != name {
        lemma_found_table(c.drop_first(), name);
        if let Some(t) = find_table(c, name) {
            let i = choose|i: int| 0 <= i < c.drop_first().len() && c.drop_first()[i] == t;
            assert(c[i + 1] == t);
        }
    } else if c.len() > 0 {
        assert(c[0] == c[0]);
    }
}

proof fn lemma_found_field(fs: Seq<FieldModel>, name: Seq<char>)
    ensures
        find_field(fs, name) matches Some(f) ==> f.name == name,
    decreases fs.len(),
{
    if fs.len() > 0 && fs[0].name != name {
        lemma_found_field(fs.drop_first(), name);
    }
}

proof fn lemma_expand_ok(prefix: Seq<char>, tname: Seq<char>, target: TableModel, keys: Seq<Seq<char>>, c: Seq<TableModel>, j: int)
    requires
        0 <= j < c.len(),
        c[j] == target,
        target.name == tname,
        forall|k: int| 0 <= k < keys.len() ==> target.primary_key.contains(#[trigger] keys[k]),
    ensures
        expand_keys(prefix, tname, target, keys) matches Ok(cols) ==> references_ok(cols, c),
    decreases keys.len(),
{
    if keys.len() > 0 {
        let prev_keys = keys.drop_last();
        assert forall|k: int| 0 <= k < prev_keys.len() implies target.primary_key.contains(
            #[trigger] prev_keys[k],
        ) by {
            assert(prev_keys[k] == keys[k]);
        }
        lemma_expand_ok(prefix, tname, target, prev_keys, c, j);
        match (expand_keys(prefix, tname, target, prev_keys), find_field(target.fields, keys.last())) {
            (Ok(prev), Some(pk)) => {
                lemma_found_field(target.fields, keys.last());
                assert(target.primary_key.contains(keys[keys.len() - 1]));
                let col = FieldModel {
                    name: prefix + seq!['_'] + pk.name,
                    datatype: pk.datatype,
                    reference: Some((tname, Box::new(pk))),
                };
                assert(c[j].name == tname && c[j].primary_key.contains(pk.name));
                assert(find_field(c[j].fields, pk.name) == Some(pk));
                assert(col.name == (prefix + seq!['_']) + pk.name);
                assert(reference_ok(col, c));
                let cols = prev.push(col);
                assert forall|k: int| 0 <= k < cols.len() implies reference_ok(#[trigger] cols[k], c) by {
                    if k < prev.len() {
                        assert(cols[k] == prev[k]);
                    }
                }
            },
            _ => {},
        }
    }
}

proof fn lemma_new_columns_ok(tname: Seq<char>, f: RawFieldModel, c: Seq<TableModel>)
    ensures
        new_columns(tname, f, c) matches Ok(cols) ==> references_ok(cols, c),
{
    if f.foreign_key {
        match f.datatype {
            RawTypeModel::ForeignKeyTable(t) => {
                lemma_found_table(c, t);
                match find_table(c, t) {
                    Some(tm) => {
                        let j = choose|j: int| 0 <= j < c.len() && c[j] == tm;
                        lemma_expand_ok(f.name, t, tm, tm.primary_key, c, j);
                    },
                    None => {},
                }
            },
            _ => {},
        }
    } else {
        match new_columns(tname, f, c) {
            Ok(cols) => {
                assert(cols.len() == 1 && cols[0].reference is None);
            },
            Err(_) => {},
        }
    }
}

proof fn lemma_add_columns_ok(tname: Seq<char>, acc: Seq<FieldModel>, cols: Seq<FieldModel>, c: Seq<TableModel>)
    requires
        references_ok(acc, c),
        references_ok(cols, c),
    ensures
        add_columns(tname, acc, cols) matches Ok(res) ==> references_ok(res, c),
    decreases cols.len(),
{
    if cols.len() > 0 {
        let prev_cols = cols.drop_last();
        assert forall|k: int| 0 <= k < prev_cols.len() implies reference_ok(#[trigger] prev_cols[k], c) by {
            assert(prev_cols[k] == cols[k]);
        }
        lemma_add_columns_ok(tname, acc, prev_cols, c);
        match add_columns(tname, acc, prev_cols) {
            Ok(prev) => {
                let res = prev.push(cols.last());
                assert(reference_ok(cols[cols.len() - 1], c));
                assert forall|k: int| 0 <= k < res.len() implies reference_ok(#[trigger] res[k], c) by {
                    if k < prev.len() {
                        assert(res[k] == prev[k]);
                    }
                }
            },
            Err(_) => {},
        }
    }
}

proof fn lemma_resolve_fields_ok(tname: Seq<char>, fs: Seq<RawFieldModel>, c: Seq<TableModel>)
    ensures
        resolve_fields(tname, fs, c) matches Ok(res) ==> references_ok(res, c),
    decreases fs.len(),
{
    if fs.len() > 0 {
        lemma_resolve_fields_ok(tname, fs.drop_last(), c);
        lemma_new_columns_ok(tname, fs.last(), c);
        match (resolve_fields(tname, fs.drop_last(), c), new_columns(tname, fs.last(), c)) {
            (Ok(prev), Ok(cols)) => {
                lemma_add_columns_ok(tname, prev, cols, c);
            },
            _ => {},
        }
    }
}

proof fn lemma_insert_table_contains(c: Seq<TableModel>, t: TableModel)
    ensures
        forall|j: int| 0 <= j < c.len() ==> insert_table(c, t).contains(#[trigger] c[j]),
        insert_table(c, t).contains(t),
    decreases c.len(),
{
    let s = insert_table(c, t);
    if c.len() == 0 {
        assert(s[0] == t);
    } else if crate::resolve::name_lt(t.name, c[0].name) {
        assert(s[0] == t);
        assert forall|j: int| 0 <= j < c.len() implies s.contains(#[trigger] c[j]) by {
            assert(s[j + 1] == c[j]);
        }
    } else {
        let r = c.drop_first();
        lemma_insert_table_contains(r, t);
        let sr = insert_table(r, t);
        assert forall|x: TableModel| sr.contains(x) implies s.contains(x) by {
            let i = choose|i: int| 0 <= i < sr.len() && sr[i] == x;
            assert(s[i + 1] == sr[i]);
        }
        assert(s[0] == c[0]);
        assert forall|j: int| 0 <= j < c.len() implies s.contains(#[trigger] c[j]) by {
            if j > 0 {
                assert(r[j - 1] == c[j]);
                assert(sr.contains(r[j - 1]));
            }
        }
    }
}

proof fn lemma_reference_ok_grow(f: FieldModel, c: Seq<TableModel>, c2: Seq<TableModel>)
    requires
        reference_ok(f, c),
        forall|j: int| 0 <= j < c.len() ==> c2.contains(#[trigger] c[j]),
    ensures
        reference_ok(f, c2),
{
    match f.reference {
        Some((r, pk)) => {
            let j = choose|j: int|
                0 <= j < c.len() && (#[trigger] c[j]).name == r && c[j].primary_key.contains(pk.name)
                    && find_field(c[j].fields, pk.name) == Some(*pk);
            assert(c2.contains(c[j]));
            let i = choose|i: int| 0 <= i < c2.len() && c2[i] == c[j];
            assert(c2[i].name == r && c2[i].primary_key.contains(pk.name));
            assert(find_field(c2[i].fields, pk.name) == Some(*pk));
        },
        None => {},
    }
}

/// A column that refers to table `r` with a copy `pk` of a column there is
/// named `<v>_<pk name>`, for a foreign-key field `v` of `fs` whose type names `r`.
pub open spec fn named_after_field(f: FieldModel, fs: Seq<RawFieldModel>) -> bool {
    match f.reference {
        None => true,
        Some((r, pk)) => exists|m: int|
            0 <= m < fs.len() && (#[trigger] fs[m]).foreign_key && fs[m].datatype
                == RawTypeModel::ForeignKeyTable(r) && f.name == fs[m].name + seq!['_'] + pk.name,
    }
}

proof fn lemma_expand_named(prefix: Seq<char>, tname: Seq<char>, target: TableModel, keys: Seq<Seq<char>>)
    ensures
        expand_keys(prefix, tname, target, keys) matches Ok(cols) ==> forall|k: int|
            0 <= k < cols.len() ==> ((#[trigger] cols[k]).reference matches Some((t, pk)) ==> t == tname
                && cols[k].name == prefix + seq!['_'] + pk.name),
    decreases keys.len(),
{
    if keys.len() > 0 {
        lemma_expand_named(prefix, tname, target, keys.drop_last());
        if let (Ok(cols), Ok(prev)) = (
            expand_keys(prefix, tname, target, keys),
            expand_keys(prefix, tname, target, keys.drop_last()),
        ) {
            assert forall|k: int| 0 <= k < cols.len() implies ((#[trigger] cols[k]).reference matches Some(
                (t, pk),
            ) ==> t == tname && cols[k].name == prefix + seq!['_'] + pk.name) by {
                if k < prev.len() {
                    assert(cols[k] == prev[k]);
                }
            }
        }
    }
}

proof fn lemma_named_grow(f: FieldModel, fs: Seq<RawFieldModel>, gs: Seq<RawFieldModel>)
    requires
        named_after_field(f, fs),
        forall|m: int| 0 <= m < fs.len() ==> gs.contains(#[trigger] fs[m]),
    ensures
        named_after_field(f, gs),
{
    if let Some((r, pk)) = f.reference {
        let m = choose|m: int|
            0 <= m < fs.len() && (#[trigger] fs[m]).foreign_key && fs[m].datatype
                == RawTypeModel::ForeignKeyTable(r) && f.name == fs[m].name + seq!['_'] + pk.name;
        assert(gs.contains(fs[m]));
        let n = choose|n: int| 0 <= n < gs.len() && gs[n] == fs[m];
        assert(gs[n].foreign_key);
    }
}

proof fn lemma_resolve_fields_named(tname: Seq<char>, fs: Seq<RawFieldModel>, c: Seq<TableModel>)
    ensures
        resolve_fields(tname, fs, c) matches Ok(res) ==> forall|k: int|
            0 <= k < res.len() ==> named_after_field(#[trigger] res[k], fs),
    decreases fs.len(),
{
    if fs.len() > 0 {
        let prev_fs = fs.drop_last();
        let f = fs.last();
        lemma_resolve_fields_named(tname, prev_fs, c);
        match (resolve_fields(tname, prev_fs, c), new_columns(tname, f, c)) {
            (Ok(prev), Ok(cols)) => {
                assert forall|m: int| 0 <= m < prev_fs.len() implies fs.contains(#[trigger] prev_fs[m]) by {
                    assert(fs[m] == prev_fs[m]);
                }
                assert forall|k: int| 0 <= k < prev.len() implies named_after_field(#[trigger] prev[k], fs) by {
                    lemma_named_grow(prev[k], prev_fs, fs);
                }
                if f.foreign_key {
                    if let RawTypeModel::ForeignKeyTable(t) = f.datatype {
                        if let Some(tm) = find_table(c, t) {
                            lemma_expand_named(f.name, t, tm, tm.primary_key);
                        }
                    }
                }
                assert forall|k: int| 0 <= k < cols.len() implies named_after_field(#[trigger] cols[k], fs) by {
                    if let Some((r, pk)) = cols[k].reference {
                        assert(fs[fs.len() - 1] == f);
                    }
                }
                lemma_add_columns_named(tname, prev, cols, fs);
            },
            _ => {},
        }
    }
}

proof fn lemma_add_columns_named(tname: Seq<char>, acc: Seq<FieldModel>, cols: Seq<FieldModel>, fs: Seq<RawFieldModel>)
    requires
        forall|k: int| 0 <= k < acc.len() ==> named_after_field(#[trigger] acc[k], fs),
        forall|k: int| 0 <= k < cols.len() ==> named_after_field(#[trigger] cols[k], fs),
    ensures
        add_columns(tname, acc, cols) matches Ok(res) ==> forall|k: int|
            0 <= k < res.len() ==> named_after_field(#[trigger] res[k], fs),
    decreases cols.len(),
{
    if cols.len() > 0 {
        let pc = cols.drop_last();
        assert forall|k: int| 0 <= k < pc.len() implies named_after_field(#[trigger] pc[k], fs) by {
            assert(pc[k] == cols[k]);
        }
        lemma_add_columns_named(tname, acc, pc, fs);
        if let Ok(prev) = add_columns(tname, acc, pc) {
            let r = prev.push(cols.last());
            assert(named_after_field(cols[cols.len() - 1], fs));
            assert forall|k: int| 0 <= k < r.len() implies named_after_field(#[trigger] r[k], fs) by {
                if k < prev.len() {
                    assert(r[k] == prev[k]);
                }
            }
        }
    }
}

/// Foreign keys, for one table: where a raw table resolves against the tables
/// resolved before it, every column that refers to a table `R` with a copy `pk`
/// of one of its columns is named `<v>_<pk name>` for a foreign-key field `v`
/// of the raw table whose type names `R`, and a table called `R` stands among
/// those tables with `pk`'s name in its primary key and `pk` as its column of
/// that name.
pub proof fn lemma_resolved_table_references(r: RawTableModel, c: Seq<TableModel>)
    ensures
        resolve_table(r, c) matches Ok(t) ==> references_ok(t.fields, c) && forall|k: int|
            0 <= k < t.fields.len() ==> named_after_field(#[trigger] t.fields[k], r.fields),
{
    lemma_resolve_fields_ok(r.name, r.fields, c);
    lemma_resolve_fields_named(r.name, r.fields, c);
}

/// Every table of `c` has well-formed references into `c`.
pub open spec fn collection_references_ok(c: Seq<TableModel>) -> bool {
    forall|i: int| 0 <= i < c.len() ==> references_ok((#[trigger] c[i]).fields, c)
}

proof fn lemma_resolve_in_order_refs(order: Seq<RawTableModel>, c: Seq<TableModel>)
    requires
        collection_references_ok(c),
    ensures
        resolve_in_order(order, c) matches Ok(res) ==> collection_references_ok(res),
    decreases order.len(),
{
    if order.len() > 0 {
        match resolve_table(order[0], c) {
            Ok(t) => {
                lemma_resolve_fields_ok(order[0].name, order[0].fields, c);
                assert(references_ok(t.fields, c));
                let c2 = insert_table(c, t);
                lemma_insert_table_contains(c, t);
                let p = |x: TableModel| x == t || c.contains(x);
                assert forall|i: int| 0 <= i < c.len() implies p(#[trigger] c[i]) by {
                    assert(c.contains(c[i]));
                }
                lemma_insert_table_all(c, t, p);
                assert forall|i: int| 0 <= i < c2.len() implies references_ok((#[trigger] c2[i]).fields, c2) by {
                    let x = c2[i];
                    assert(p(x));
                    assert(references_ok(x.fields, c)) by {
                        if x != t {
                            let j = choose|j: int| 0 <= j < c.len() && c[j] == x;
                            assert(references_ok(c[j].fields, c));
                        }
                    }
                    assert forall|k: int| 0 <= k < x.fields.len() implies reference_ok(#[trigger] x.fields[k], c2) by {
                        assert(reference_ok(x.fields[k], c));
                        lemma_reference_ok_grow(x.fields[k], c, c2);
                    }
                }
                lemma_resolve_in_order_refs(order.drop_first(), c2);
            },
            Err(_) => {},
        }
    }
}

/// Foreign keys: in every table that a text compiles to, every column that
/// refers to a table `R` with a copy `pk` of one of its columns is named
/// `<name>_<pk name>`, and a table called `R` stands in the result with
/// `pk`'s name in its primary key.
pub proof fn lemma_references_name_primary_keys(text: Seq<char>)
    ensures
        compile_spec(text) matches Ok(c) ==> collection_references_ok(c),
{
    match raw_tables_spec(text) {
        Ok(raw) => {
            let queue = sort_raw(crate::resolve::infer_targets(raw));
            if crate::resolve::first_unresolved(queue, raw_names(queue)) is None {
                match order_tables(queue, seq![], 0) {
                    Ok(order) => {
                        lemma_resolve_in_order_refs(order, seq![]);
                    },
                    Err(_) => {},
                }
            }
        },
        Err(_) => {},
    }
}

proof fn lemma_name_lt_asymmetric(a: Seq<char>, b: Seq<char>)
    ensures
        crate::resolve::name_lt(a, b) ==> !crate::resolve::name_lt(b, a),
    decreases a.len(),
{
    if a.len() > 0 && b.len() > 0 && a[0] == b[0] {
        lemma_name_lt_asymmetric(a.drop_first(), b.drop_first());
    }
}

proof fn lemma_name_lt_transitive(a: Seq<char>, b: Seq<char>, c: Seq<char>)
    requires
        crate::resolve::name_lt(a, b),
        crate::resolve::name_lt(b, c),
    ensures
        crate::resolve::name_lt(a, c),
    decreases a.len(),
{
    if a.len() > 0 && b.len() > 0 && c.len() > 0 && a[0] == b[0] && b[0] == c[0] {
        lemma_name_lt_transitive(a.drop_first(), b.drop_first(), c.drop_first());
    }
}

/// No table's name comes before the name of a table that stands before it.
pub open spec fn ordered_by_name(c: Seq<TableModel>) -> bool {
    forall|j: int, k: int| 0 <= j < k < c.len() ==> !crate::resolve::name_lt(c[k].name, c[j].name)
}

proof fn lemma_insert_table_ordered(c: Seq<TableModel>, t: TableModel)
    requires
        ordered_by_name(c),
    ensures
        ordered_by_name(insert_table(c, t)),
    decreases c.len(),
{
    let s = insert_table(c, t);
    if c.len() == 0 {
    } else if crate::resolve::name_lt(t.name, c[0].name) {
        assert forall|j: int, k: int| 0 <= j < k < s.len() implies !crate::resolve::name_lt(
            s[k].name,
            s[j].name,
        ) by {
            if j == 0 {
                assert(s[j] == t);
                assert(s[k] == c[k - 1]);
                lemma_name_lt_asymmetric(t.name, c[0].name);
                if k - 1 > 0 {
                    if crate::resolve::name_lt(c[k - 1].name, t.name) {
                        lemma_name_lt_transitive(c[k - 1].name, t.name, c[0].name);
                    }
                }
            } else {
                assert(s[j] == c[j - 1] && s[k] == c[k - 1]);
            }
        }
    } else {
        let r = c.drop_first();
        assert(ordered_by_name(r)) by {
            assert forall|j: int, k: int| 0 <= j < k < r.len() implies !crate::resolve::name_lt(
                r[k].name,
                r[j].name,
            ) by {
                assert(r[j] == c[j + 1] && r[k] == c[k + 1]);
            }
        }
        lemma_insert_table_ordered(r, t);
        let sr = insert_table(r, t);
        assert(s == seq![c[0]] + sr);
        // every table of `sr` is `t` or one of `r`, and none of those comes before `c[0]`
        let p = |x: TableModel| x == t || r.contains(x);
        assert forall|i: int| 0 <= i < r.len() implies p(#[trigger] r[i]) by {
            assert(r.contains(r[i]));
        }
        lemma_insert_table_all(r, t, p);
        assert forall|j: int, k: int| 0 <= j < k < s.len() implies !crate::resolve::name_lt(
            s[k].name,
            s[j].name,
        ) by {
            if j == 0 {
                assert(s[k] == sr[k - 1]);
                assert(p(sr[k - 1]));
                if sr[k - 1] != t {
                    let i = choose|i: int| 0 <= i < r.len() && r[i] == sr[k - 1];
                    assert(r[i] == c[i + 1]);
                }
            } else {
                assert(s[j] == sr[j - 1] && s[k] == sr[k - 1]);
            }
        }
    }
}

proof fn lemma_resolve_in_order_ordered(order: Seq<RawTableModel>, c: Seq<TableModel>)
    requires
        ordered_by_name(c),
    ensures
        resolve_in_order(order, c) matches Ok(res) ==> ordered_by_name(res),
    decreases order.len(),
{
    if order.len() > 0 {
        match resolve_table(order[0], c) {
            Ok(t) => {
                lemma_insert_table_ordered(c, t);
                lemma_resolve_in_order_ordered(order.drop_first(), insert_table(c, t));
            },
            Err(_) => {},
        }
    }
}

/// Order: the tables that a text compiles to stand in order of name.
pub proof fn lemma_compiled_tables_ordered(text: Seq<char>)
    ensures
        compile_spec(text) matches Ok(c) ==> ordered_by_name(c),
{
    match raw_tables_spec(text) {
        Ok(raw) => {
            let queue = sort_raw(crate::resolve::infer_targets(raw));
            if crate::resolve::first_unresolved(queue, raw_names(queue)) is None {
                match order_tables(queue, seq![], 0) {
                    Ok(order) => {
                        lemma_resolve_in_order_ordered(order, seq![]);
                    },
                    Err(_) => {},
                }
            }
        },
        Err(_) => {},
    }
}

/// The names of the tables are distinct.
pub open spec fn distinct_names(c: Seq<TableModel>) -> bool {
    forall|j: int, k: int| 0 <= j < k < c.len() ==> c[j].name != c[k].name
}

proof fn lemma_tables_from_unique(s: Seq<char>, i: int, acc: Seq<RawTableModel>)
    requires
        unique_table_names(acc),
    ensures
        tables_from(s, i, acc) matches Ok(r) ==> unique_table_names(r),
    decreases s.len() - i,
{
    let j = blank_end(s, i);
    if j >= s.len() || i < 0 {
    } else {
        match table_syntax(s, j) {
            None => {},
            Some((e, t)) => match crate::parser::stream::decode_table(t) {
                None => {},
                Some(m) => {
                    if i < e <= s.len() {
                        if !declares(acc, m.name) {
                            let u = acc.push(m);
                            assert forall|a: int, b: int| 0 <= a < b < u.len() implies u[a].name != u[b].name by {
                                if b == acc.len() {
                                    assert(u[a] == acc[a]);
                                }
                            }
                            lemma_tables_from_unique(s, e, u);
                        }
                    }
                },
            },
        }
    }
}

/// Every table of `insert_raw(q, t)` is `t` or one of `q`, and the other way round.
proof fn lemma_insert_raw_members(q: Seq<RawTableModel>, t: RawTableModel)
    ensures
        forall|i: int| 0 <= i < insert_raw(q, t).len() ==> (#[trigger] insert_raw(q, t)[i] == t
            || q.contains(insert_raw(q, t)[i])),
        insert_raw(q, t).len() == q.len() + 1,
    decreases q.len(),
{
    let s = insert_raw(q, t);
    if q.len() > 0 {
        if crate::resolve::name_lt(t.name, q[0].name) {
            assert forall|i: int| 0 <= i < s.len() implies (#[trigger] s[i] == t || q.contains(s[i])) by {
                if i > 0 {
                    assert(s[i] == q[i - 1]);
                }
            }
        } else {
            let r = q.drop_first();
            lemma_insert_raw_members(r, t);
            assert forall|i: int| 0 <= i < s.len() implies (#[trigger] s[i] == t || q.contains(s[i])) by {
                if i == 0 {
                    assert(s[0] == q[0]);
                } else {
                    assert(s[i] == insert_raw(r, t)[i - 1]);
                    if insert_raw(r, t)[i - 1] != t {
                        let k = choose|k: int| 0 <= k < r.len() && r[k] == insert_raw(r, t)[i - 1];
                        assert(q[k + 1] == r[k]);
                    }
                }
            }
        }
    }
}

proof fn lemma_insert_raw_unique(q: Seq<RawTableModel>, t: RawTableModel)
    requires
        unique_table_names(q),
        forall|k: int| 0 <= k < q.len() ==> (#[trigger] q[k]).name != t.name,
    ensures
        unique_table_names(insert_raw(q, t)),
    decreases q.len(),
{
    let s = insert_raw(q, t);
    if q.len() > 0 {
        if crate::resolve::name_lt(t.name, q[0].name) {
            assert forall|j: int, k: int| 0 <= j < k < s.len() implies s[j].name != s[k].name by {
                assert(s[k] == q[k - 1]);
                if j > 0 {
                    assert(s[j] == q[j - 1]);
                }
            }
        } else {
            let r = q.drop_first();
            assert forall|k: int| 0 <= k < r.len() implies (#[trigger] r[k]).name != t.name by {
                assert(r[k] == q[k + 1]);
            }
            assert(unique_table_names(r)) by {
                assert forall|j: int, k: int| 0 <= j < k < r.len() implies r[j].name != r[k].name by {
                    assert(r[j] == q[j + 1] && r[k] == q[k + 1]);
                }
            }
            lemma_insert_raw_unique(r, t);
            lemma_insert_raw_members(r, t);
            let sr = insert_raw(r, t);
            assert forall|j: int, k: int| 0 <= j < k < s.len() implies s[j].name != s[k].name by {
                assert(s[k] == sr[k - 1]);
                if j == 0 {
                    assert(s[0] == q[0]);
                    if sr[k - 1] != t {
                        let m = choose|m: int| 0 <= m < r.len() && r[m] == sr[k - 1];
                        assert(q[m + 1] == r[m]);
                    }
                } else {
                    assert(s[j] == sr[j - 1]);
                }
            }
        }
    }
}

proof fn lemma_sort_raw_unique(ts: Seq<RawTableModel>)
    requires
        unique_table_names(ts),
    ensures
        unique_table_names(sort_raw(ts)),
        forall|i: int| 0 <= i < sort_raw(ts).len() ==> ts.contains(#[trigger] sort_raw(ts)[i]),
    decreases ts.len(),
{
    if ts.len() > 0 {
        let prev = ts.drop_last();
        assert(unique_table_names(prev)) by {
            assert forall|j: int, k: int| 0 <= j < k < prev.len() implies prev[j].name != prev[k].name by {
                assert(prev[j] == ts[j] && prev[k] == ts[k]);
            }
        }
        lemma_sort_raw_unique(prev);
        let sp = sort_raw(prev);
        assert forall|k: int| 0 <= k < sp.len() implies (#[trigger] sp[k]).name != ts.last().name by {
            assert(prev.contains(sp[k]));
            let m = choose|m: int| 0 <= m < prev.len() && prev[m] == sp[k];
            assert(ts[m] == prev[m]);
        }
        lemma_insert_raw_unique(sp, ts.last());
        lemma_insert_raw_members(sp, ts.last());
        let s = sort_raw(ts);
        assert forall|i: int| 0 <= i < s.len() implies ts.contains(#[trigger] s[i]) by {
            if s[i] == ts.last() {
                assert(ts[ts.len() - 1] == ts.last());
            } else {
                let m = choose|m: int| 0 <= m < sp.len() && sp[m] == s[i];
                assert(prev.contains(sp[m]));
                let n = choose|n: int| 0 <= n < prev.len() && prev[n] == sp[m];
                assert(ts[n] == prev[n]);
            }
        }
    }
}

/// The two sequences of tables share no name.
pub open spec fn disjoint_names(a: Seq<RawTableModel>, b: Seq<RawTableModel>) -> bool {
    forall|j: int, k: int| 0 <= j < a.len() && 0 <= k < b.len() ==> a[j].name != b[k].name
}

proof fn lemma_order_tables_unique(queue: Seq<RawTableModel>, order: Seq<RawTableModel>, stall: nat)
    requires
        unique_table_names(queue),
        unique_table_names(order),
        disjoint_names(queue, order),
    ensures
        order_tables(queue, order, stall) matches Ok(res) ==> unique_table_names(res),
    decreases queue.len(), queue.len() - stall,
{
    if queue.len() == 0 {
    } else if stall >= queue.len() {
    } else {
        let t = queue[0];
        let rest = queue.drop_first();
        assert(unique_table_names(rest)) by {
            assert forall|j: int, k: int| 0 <= j < k < rest.len() implies rest[j].name != rest[k].name by {
                assert(rest[j] == queue[j + 1] && rest[k] == queue[k + 1]);
            }
        }
        if crate::resolve::all_in(fk_targets(t.fields), raw_names(order)) {
            let o2 = order.push(t);
            assert(unique_table_names(o2)) by {
                assert forall|j: int, k: int| 0 <= j < k < o2.len() implies o2[j].name != o2[k].name by {
                    if k == order.len() {
                        assert(o2[j] == order[j]);
                    }
                }
            }
            assert(disjoint_names(rest, o2)) by {
                assert forall|j: int, k: int| 0 <= j < rest.len() && 0 <= k < o2.len() implies rest[j].name
                    != o2[k].name by {
                    assert(rest[j] == queue[j + 1]);
                    if k < order.len() {
                        assert(o2[k] == order[k]);
                    }
                }
            }
            lemma_order_tables_unique(rest, o2, 0);
        } else {
            let q2 = rest.push(t);
            assert(unique_table_names(q2)) by {
                assert forall|j: int, k: int| 0 <= j < k < q2.len() implies q2[j].name != q2[k].name by {
                    assert(q2[j] == queue[j + 1]);
                    if k < rest.len() {
                        assert(q2[k] == queue[k + 1]);
                    }
                }
            }
            assert(disjoint_names(q2, order)) by {
                assert forall|j: int, k: int| 0 <= j < q2.len() && 0 <= k < order.len() implies q2[j].name
                    != order[k].name by {
                    if j < rest.len() {
                        assert(q2[j] == queue[j + 1]);
                    }
                }
            }
            lemma_order_tables_unique(q2, order, stall + 1);
        }
    }
}

proof fn lemma_insert_table_distinct(c: Seq<TableModel>, t: TableModel)
    requires
        distinct_names(c),
        forall|k: int| 0 <= k < c.len() ==> (#[trigger] c[k]).name != t.name,
    ensures
        distinct_names(insert_table(c, t)),
        forall|i: int| 0 <= i < insert_table(c, t).len() ==> (#[trigger] insert_table(c, t)[i] == t
            || c.contains(insert_table(c, t)[i])),
    decreases c.len(),
{
    let s = insert_table(c, t);
    let p = |x: TableModel| x == t || c.contains(x);
    assert forall|i: int| 0 <= i < c.len() implies p(#[trigger] c[i]) by {
        assert(c.contains(c[i]));
    }
    lemma_insert_table_all(c, t, p);
    assert forall|i: int| 0 <= i < s.len() implies (#[trigger] s[i] == t || c.contains(s[i])) by {
        assert(p(s[i]));
    }
    if c.len() > 0 {
        if crate::resolve::name_lt(t.name, c[0].name) {
            assert forall|j: int, k: int| 0 <= j < k < s.len() implies s[j].name != s[k].name by {
                assert(s[k] == c[k - 1]);
                if j > 0 {
                    assert(s[j] == c[j - 1]);
                }
            }
        } else {
            let r = c.drop_first();
            assert forall|k: int| 0 <= k < r.len() implies (#[trigger] r[k]).name != t.name by {
                assert(r[k] == c[k + 1]);
            }
            assert(distinct_names(r)) by {
                assert forall|j: int, k: int| 0 <= j < k < r.len() implies r[j].name != r[k].name by {
                    assert(r[j] == c[j + 1] && r[k] == c[k + 1]);
                }
            }
            lemma_insert_table_distinct(r, t);
            let sr = insert_table(r, t);
            assert forall|j: int, k: int| 0 <= j < k < s.len() implies s[j].name != s[k].name by {
                assert(s[k] == sr[k - 1]);
                if j == 0 {
                    assert(s[0] == c[0]);
                    if sr[k - 1] != t {
                        let m = choose|m: int| 0 <= m < r.len() && r[m] == sr[k - 1];
                        assert(c[m + 1] == r[m]);
                    }
                } else {
                    assert(s[j] == sr[j - 1]);
                }
            }
        }
    }
}

proof fn lemma_resolve_in_order_distinct(order: Seq<RawTableModel>, c: Seq<TableModel>)
    requires
        distinct_names(c),
        unique_table_names(order),
        forall|j: int, k: int| 0 <= j < order.len() && 0 <= k < c.len() ==> order[j].name != c[k].name,
    ensures
        resolve_in_order(order, c) matches Ok(res) ==> distinct_names(res),
    decreases order.len(),
{
    if order.len() > 0 {
        match resolve_table(order[0], c) {
            Ok(t) => {
                assert(t.name == order[0].name);
                assert forall|k: int| 0 <= k < c.len() implies (#[trigger] c[k]).name != t.name by {}
                lemma_insert_table_distinct(c, t);
                let c2 = insert_table(c, t);
                let rest = order.drop_first();
                assert(unique_table_names(rest)) by {
                    assert forall|j: int, k: int| 0 <= j < k < rest.len() implies rest[j].name != rest[k].name by {
                        assert(rest[j] == order[j + 1] && rest[k] == order[k + 1]);
                    }
                }
                assert forall|j: int, k: int| 0 <= j < rest.len() && 0 <= k < c2.len() implies rest[j].name
                    != c2[k].name by {
                    assert(rest[j] == order[j + 1]);
                    if c2[k] != t {
                        let m = choose|m: int| 0 <= m < c.len() && c[m] == c2[k];
                    }
                }
                lemma_resolve_in_order_distinct(rest, c2);
            },
            Err(_) => {},
        }
    }
}

/// Distinct names: no two tables that a text compiles to share a name.
pub proof fn lemma_compiled_names_distinct(text: Seq<char>)
    ensures
        compile_spec(text) matches Ok(c) ==> distinct_names(c),
{
    lemma_tables_from_unique(text, 0, seq![]);
    match raw_tables_spec(text) {
        Ok(raw) => {
            lemma_infer_unique(raw);
            lemma_sort_raw_unique(crate::resolve::infer_targets(raw));
            let queue = sort_raw(crate::resolve::infer_targets(raw));
            if crate::resolve::first_unresolved(queue, raw_names(queue)) is None {
                lemma_order_tables_unique(queue, seq![], 0);
                match order_tables(queue, seq![], 0) {
                    Ok(order) => {
                        lemma_resolve_in_order_distinct(order, seq![]);
                    },
                    Err(_) => {},
                }
            }
        },
        Err(_) => {},
    }
}

pub(crate) proof fn lemma_insert_table_all_pub(c: Seq<TableModel>, t: TableModel, p: spec_fn(TableModel) -> bool)
    requires
        forall|i: int| 0 <= i < c.len() ==> p(#[trigger] c[i]),
        p(t),
    ensures
        forall|i: int| 0 <= i < insert_table(c, t).len() ==> p(#[trigger] insert_table(c, t)[i]),
{
    lemma_insert_table_all(c, t, p);
}

/// Every table of `sort_raw(ts)` is one of `ts`.
pub(crate) proof fn lemma_sort_raw_members(ts: Seq<RawTableModel>)
    ensures
        forall|i: int| 0 <= i < sort_raw(ts).len() ==> ts.contains(#[trigger] sort_raw(ts)[i]),
    decreases ts.len(),
{
    if ts.len() > 0 {
        let prev = ts.drop_last();
        lemma_sort_raw_members(prev);
        let sp = sort_raw(prev);
        lemma_insert_raw_members(sp, ts.last());
        let s = sort_raw(ts);
        assert forall|i: int| 0 <= i < s.len() implies ts.contains(#[trigger] s[i]) by {
            if s[i] == ts.last() {
                assert(ts[ts.len() - 1] == ts.last());
            } else {
                let m = choose|m: int| 0 <= m < sp.len() && sp[m] == s[i];
                let n = choose|n: int| 0 <= n < prev.len() && prev[n] == sp[m];
                assert(ts[n] == prev[n]);
            }
        }
    }
}

/// Filling in foreign-key targets keeps each table's name.
pub(crate) proof fn lemma_infer_names(raw: Seq<RawTableModel>)
    ensures
        crate::resolve::infer_targets(raw).len() == raw.len(),
        forall|k: int| 0 <= k < raw.len() ==> (#[trigger] crate::resolve::infer_targets(raw)[k]).name == raw[k].name
            && crate::resolve::infer_targets(raw)[k].primary_key == raw[k].primary_key
            && crate::resolve::infer_targets(raw)[k].fields.len() == raw[k].fields.len()
            && forall|m: int| 0 <= m < raw[k].fields.len() ==> (#[trigger] crate::resolve::infer_targets(raw)[k].fields[m]).name
                == raw[k].fields[m].name,
{
}

proof fn lemma_infer_unique(raw: Seq<RawTableModel>)
    requires
        unique_table_names(raw),
    ensures
        unique_table_names(crate::resolve::infer_targets(raw)),
{
    lemma_infer_names(raw);
}

/// Every table of `w` refers to a table whose name is among `w`'s names.
pub open spec fn waits_on_waiting(w: Seq<RawTableModel>) -> bool {
    forall|i: int| 0 <= i < w.len() ==> refers_among(#[trigger] w[i], raw_names(w))
}

/// The table refers to a table whose name is among `names`.
pub open spec fn refers_among(t: RawTableModel, names: Seq<Seq<char>>) -> bool {
    exists|k: int| 0 <= k < fk_targets(t.fields).len() && names.contains(#[trigger] fk_targets(t.fields)[k])
}

/// Every table that a table of `queue` refers to is named in `queue` or in `order`.
pub open spec fn targets_within(queue: Seq<RawTableModel>, order: Seq<RawTableModel>) -> bool {
    forall|i: int, k: int|
        #![trigger fk_targets(queue[i].fields)[k]]
        0 <= i < queue.len() && 0 <= k < fk_targets(queue[i].fields).len() ==> raw_names(queue).contains(
            fk_targets(queue[i].fields)[k],
        ) || raw_names(order).contains(fk_targets(queue[i].fields)[k])
}

proof fn lemma_cycle_when_all_wait(queue: Seq<RawTableModel>, order: Seq<RawTableModel>)
    requires
        targets_within(queue, order),
        forall|i: int|
            0 <= i < queue.len() ==> !crate::resolve::all_in(
                fk_targets((#[trigger] queue[i]).fields),
                raw_names(order),
            ),
    ensures
        waits_on_waiting(queue),
{
    assert forall|i: int| 0 <= i < queue.len() implies refers_among(#[trigger] queue[i], raw_names(queue)) by {
        let ts = fk_targets(queue[i].fields);
        assert(!crate::resolve::all_in(ts, raw_names(order)));
        let k = choose|k: int| 0 <= k < ts.len() && !raw_names(order).contains(#[trigger] ts[k]);
        assert(raw_names(queue).contains(ts[k]) || raw_names(order).contains(ts[k]));
        assert(raw_names(queue).contains(fk_targets(queue[i].fields)[k]));
    }
}

proof fn lemma_within_append(queue: Seq<RawTableModel>, order: Seq<RawTableModel>)
    requires
        queue.len() > 0,
        targets_within(queue, order),
    ensures
        targets_within(queue.drop_first(), order.push(queue[0])),
{
    let rest = queue.drop_first();
    let o2 = order.push(queue[0]);
    assert(targets_within(rest, o2)) by {
        assert forall|i: int, k: int|
            0 <= i < rest.len() && 0 <= k < fk_targets(rest[i].fields).len() implies raw_names(
            rest,
        ).contains(#[trigger] fk_targets(rest[i].fields)[k]) || raw_names(o2).contains(
            fk_targets(rest[i].fields)[k],
        ) by {
            assert(rest[i] == queue[i + 1]);
            let x = fk_targets(queue[i + 1].fields)[k];
            if raw_names(queue).contains(x) {
                let m = choose|m: int| 0 <= m < raw_names(queue).len() && raw_names(queue)[m] == x;
                if m == 0 {
                    assert(raw_names(o2)[order.len() as int] == x);
                } else {
                    assert(raw_names(rest)[m - 1] == x);
                }
            } else {
                let m = choose|m: int| 0 <= m < raw_names(order).len() && raw_names(order)[m] == x;
                assert(raw_names(o2)[m] == x);
            }
        }
    }
}

proof fn lemma_within_rotate(queue: Seq<RawTableModel>, order: Seq<RawTableModel>)
    requires
        queue.len() > 0,
        targets_within(queue, order),
    ensures
        targets_within(queue.drop_first().push(queue[0]), order),
{
    let t = queue[0];
    let rest = queue.drop_first();
    let q2 = rest.push(t);
    assert(targets_within(q2, order)) by {
        assert forall|i: int, k: int|
            0 <= i < q2.len() && 0 <= k < fk_targets(q2[i].fields).len() implies raw_names(
            q2,
        ).contains(#[trigger] fk_targets(q2[i].fields)[k]) || raw_names(order).contains(
            fk_targets(q2[i].fields)[k],
        ) by {
            let j = if i < rest.len() { i + 1 } else { 0 };
            assert(q2[i] == queue[j]);
            let x = fk_targets(queue[j].fields)[k];
            if raw_names(queue).contains(x) {
                let m = choose|m: int| 0 <= m < raw_names(queue).len() && raw_names(queue)[m] == x;
                if m == 0 {
                    assert(raw_names(q2)[rest.len() as int] == x);
                } else {
                    assert(raw_names(q2)[m - 1] == x);
                }
            }
        }
    }
}

proof fn lemma_order_tables_cycle(queue: Seq<RawTableModel>, order: Seq<RawTableModel>, stall: nat)
    requires
        stall <= queue.len(),
        targets_within(queue, order),
        forall|i: int|
            queue.len() - stall <= i < queue.len() ==> !crate::resolve::all_in(
                fk_targets((#[trigger] queue[i]).fields),
                raw_names(order),
            ),
    ensures
        order_tables(queue, order, stall) matches Err(e) ==> exists|w: Seq<RawTableModel>|
            e == ErrorModel::Cycle(raw_names(w)) && w.len() > 0 && waits_on_waiting(w),
    decreases queue.len(), queue.len() - stall,
{
    if queue.len() == 0 {
    } else if stall >= queue.len() {
        lemma_cycle_when_all_wait(queue, order);
    } else {
        let t = queue[0];
        let rest = queue.drop_first();
        if crate::resolve::all_in(fk_targets(t.fields), raw_names(order)) {
            let o2 = order.push(t);
            lemma_within_append(queue, order);
            lemma_order_tables_cycle(rest, o2, 0);
        } else {
            let q2 = rest.push(t);
            lemma_within_rotate(queue, order);
            assert forall|i: int| q2.len() - (stall + 1) <= i < q2.len() implies !crate::resolve::all_in(
                fk_targets((#[trigger] q2[i]).fields),
                raw_names(order),
            ) by {
                if i < rest.len() {
                    assert(q2[i] == queue[i + 1]);
                }
            }
            lemma_order_tables_cycle(q2, order, stall + 1);
        }
    }
}

proof fn lemma_first_unresolved_none(ts: Seq<RawTableModel>, names: Seq<Seq<char>>)
    requires
        crate::resolve::first_unresolved(ts, names) is None,
    ensures
        forall|i: int, k: int|
            #![trigger fk_targets(ts[i].fields)[k]]
            0 <= i < ts.len() && 0 <= k < fk_targets(ts[i].fields).len() ==> names.contains(
                fk_targets(ts[i].fields)[k],
            ),
    decreases ts.len(),
{
    if ts.len() > 0 {
        lemma_missing_target_none(fk_targets(ts[0].fields), names);
        lemma_first_unresolved_none(ts.drop_first(), names);
        assert forall|i: int, k: int|
            0 <= i < ts.len() && 0 <= k < fk_targets(ts[i].fields).len() implies names.contains(
            #[trigger] fk_targets(ts[i].fields)[k],
        ) by {
            if i > 0 {
                assert(ts[i] == ts.drop_first()[i - 1]);
            }
        }
    }
}

proof fn lemma_missing_target_none(targets: Seq<Seq<char>>, names: Seq<Seq<char>>)
    requires
        crate::resolve::missing_target(targets, names) is None,
    ensures
        forall|k: int| 0 <= k < targets.len() ==> names.contains(#[trigger] targets[k]),
    decreases targets.len(),
{
    if targets.len() > 0 {
        lemma_missing_target_none(targets.drop_first(), names);
        assert forall|k: int| 0 <= k < targets.len() implies names.contains(#[trigger] targets[k]) by {
            if k > 0 {
                assert(targets[k] == targets.drop_first()[k - 1]);
            }
        }
    }
}

/// Cycles: where every table that a declaration refers to is declared, the
/// dependency order fails only with a nonempty set of tables each of which
/// refers to a table of the set; so an acyclic set of declarations is always
/// ordered.
pub proof fn lemma_cycle_reported_only_for_cycles(raw: Seq<RawTableModel>)
    ensures
        ({
            let queue = sort_raw(crate::resolve::infer_targets(raw));
            crate::resolve::first_unresolved(queue, raw_names(queue)) is None ==> (order_tables(
                queue,
                seq![],
                0,
            ) matches Err(e) ==> exists|w: Seq<RawTableModel>|
                e == ErrorModel::Cycle(raw_names(w)) && w.len() > 0 && waits_on_waiting(w))
        }),
{
    let queue = sort_raw(crate::resolve::infer_targets(raw));
    if crate::resolve::first_unresolved(queue, raw_names(queue)) is None {
        lemma_first_unresolved_none(queue, raw_names(queue));
        lemma_order_tables_cycle(queue, seq![], 0);
    }
}

} // verus!
