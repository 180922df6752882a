use vstd::prelude::*;

use crate::types::{fields_model, find_field_index, DataType, Field, FieldModel, Table, TableExtra, TableModel};

verus! {

/// What `hmac_sha256::HMAC::mac` returns for an empty message under the key
/// made of the 8 little-endian bytes of `seed`.
pub uninterp spec fn seed_digest(seed: u64) -> Seq<u8>;

/// Relies on `hmac_sha256::HMAC::mac`: the 32-byte HMAC-SHA-256 of an empty
/// message under the given key, a function of the key alone.
#[verifier::external_body]
fn hash_number(input: u64) -> (r: [u8; 32])
    ensures
        r@ == seed_digest(input),
{
    let key: [u8; 8] = input.to_le_bytes();
    hmac_sha256::HMAC::mac([0u8; 0], key)
}

/// Each byte as an upper-case letter: `A` plus the byte modulo 24.
pub open spec fn letters(bs: Seq<u8>) -> Seq<char> {
    bs.map_values(|b: u8| ((b % 24 + 65) as u8) as char)
}

/// Maps each byte to a letter, as `letters` says.
pub fn u8s_to_string(input: &[u8]) -> (r: String)
    ensures
        r@ == letters(input@),
{
    let mut s = String::new();
    let mut k: usize = 0;
    while k < input.len()
        invariant
            k <= input@.len(),
            s@ == letters(input@).subrange(0, k as int),
        decreases input@.len() - k,
    {
        let b = input[k];
        let c = ((b % 24 + 65) as u8) as char;
        s.push(c);
        assert(s@ =~= letters(input@).subrange(0, k + 1));
        k = k + 1;
    }
    assert(letters(input@).subrange(0, k as int) =~= letters(input@));
    s
}

/// The letters of the digest of a number.
pub fn hash_number_and_stringify(input: usize) -> (r: String)
    ensures
        r@ == letters(seed_digest(input as u64)),
        r@.len() == 32,
{
    let h = hash_number(input as u64);
    u8s_to_string(h.as_slice())
}

/// Values made up from a number, for test fixtures.
pub trait GenerateDummy: Sized {
    fn generate_dummy(number: usize) -> Self;
}

/// The type of the dummy column made from `number`: the types cycle through
/// `int`, `double`, `varchar(100)`, `char(6)` and `uuid`.
pub open spec fn dummy_type(number: usize) -> DataType {
    let k = number % 5;
    if k == 0 {
        DataType::Int
    } else if k == 1 {
        DataType::Double
    } else if k == 2 {
        DataType::VarChar(100)
    } else if k == 3 {
        DataType::Char(6)
    } else {
        DataType::Uuid
    }
}

/// The dummy column made from `number`.
pub open spec fn dummy_field(number: usize) -> FieldModel {
    FieldModel {
        name: letters(seed_digest(number as u64)),
        datatype: dummy_type(number),
        reference: None,
    }
}

impl DataType {
    pub fn dummy(number: usize) -> (r: DataType)
        ensures
            r == dummy_type(number),
    {
        let k = number % 5;
        if k == 0 {
            DataType::Int
        } else if k == 1 {
            DataType::Double
        } else if k == 2 {
            DataType::VarChar(100)
        } else if k == 3 {
            DataType::Char(6)
        } else {
            DataType::Uuid
        }
    }
}

impl Field {
    pub fn dummy(number: usize) -> (r: Field)
        ensures
            r@ == dummy_field(number),
    {
        let name = hash_number_and_stringify(number);
        Field::new(name, DataType::dummy(number))
    }
}

impl GenerateDummy for DataType {
    fn generate_dummy(number: usize) -> DataType {
        DataType::dummy(number)
    }
}

impl GenerateDummy for Field {
    fn generate_dummy(number: usize) -> Field {
        Field::dummy(number)
    }
}

/// No two columns share a name.
pub open spec fn unique_columns(fs: Seq<FieldModel>) -> bool {
    forall|j: int, k: int| 0 <= j < k < fs.len() ==> fs[j].name != fs[k].name
}

/// A column map with `f` entered under its name: it replaces a column of the
/// same name in place, or comes last.
pub open spec fn upsert_column(fs: Seq<FieldModel>, f: FieldModel) -> Seq<FieldModel> {
    if exists|k: int| 0 <= k < fs.len() && fs[k].name == f.name {
        fs.update(choose|k: int| 0 <= k < fs.len() && fs[k].name == f.name, f)
    } else {
        fs.push(f)
    }
}

/// The number that the `i`-th dummy column of table `counter` is made from.
pub open spec fn dummy_number(counter: usize, i: usize) -> usize {
    i.wrapping_add(counter.wrapping_mul(100))
}

/// The columns of dummy table `counter`, the first `n` entered in order.
pub open spec fn dummy_fields(counter: usize, n: nat) -> Seq<FieldModel>
    decreases n,
{
    if n == 0 {
        seq![]
    } else {
        upsert_column(dummy_fields(counter, (n - 1) as nat), dummy_field(dummy_number(counter, (n - 1) as usize)))
    }
}

/// Enters `f` into the column map `fields`.
fn upsert_field_column(fields: &mut Vec<Field>, f: Field)
    requires
        unique_columns(fields_model(old(fields)@)),
    ensures
        fields_model(final(fields)@) == upsert_column(fields_model(old(fields)@), f@),
        unique_columns(fields_model(final(fields)@)),
        final(fields)@.len() > 0,
        old(fields)@.len() > 0 ==> final(fields)@.len() > 0 && fields_model(final(fields)@)[0].name
            == fields_model(old(fields)@)[0].name,
{
    let ghost fs = fields_model(fields@);
    match find_field_index(fields, &f.name) {
        Some(k) => {
            proof {
                lemma_find_field_first(fs, f@.name, k as int);
            }
            let ghost c = choose|j: int| 0 <= j < fs.len() && fs[j].name == f@.name;
            assert(fs[c].name == f@.name);
            proof {
                if c < k {
                    assert(fs[c].name != fs[k as int].name);
                }
                if k < c {
                    assert(fs[k as int].name != fs[c].name);
                }
            }
            assert(c == k);
            let ghost fv = f@;
            fields.set(k, f);
            assert(fields_model(fields@) =~= fs.update(k as int, fv));
        },
        None => {
            proof {
                lemma_find_field_none(fs, f@.name);
            }
            let ghost fv = f@;
            fields.push(f);
            assert(fields_model(fields@) =~= fs.push(fv));
        },
    }
}

proof fn lemma_find_field_first(fs: Seq<FieldModel>, name: Seq<char>, k: int)
    requires
        0 <= k < fs.len(),
        crate::types::find_field(fs, name) == Some(fs[k]),
        unique_columns(fs),
    ensures
        fs[k].name == name,
    decreases fs.len(),
{
    if fs[0].name == name {
        if k != 0 {
            assert(fs[0].name != fs[k].name);
        }
    } else {
        let r = fs.drop_first();
        if k == 0 {
            lemma_find_field_in(r, name);
        } else {
            assert(unique_columns(r)) by {
                assert forall|a: int, b: int| 0 <= a < b < r.len() implies r[a].name != r[b].name by {
                    assert(r[a] == fs[a + 1] && r[b] == fs[b + 1]);
                }
            }
            assert(r[k - 1] == fs[k]);
            lemma_find_field_first(r, name, k - 1);
        }
    }
}

/// A field that `find_field` returns has the name asked for.
proof fn lemma_find_field_in(fs: Seq<FieldModel>, name: Seq<char>)
    ensures
        crate::types::find_field(fs, name) matches Some(f) ==> f.name == name,
    decreases fs.len(),
{
    if fs.len() > 0 && fs[0].name != name {
        lemma_find_field_in(fs.drop_first(), name);
    }
}

proof fn lemma_find_field_none(fs: Seq<FieldModel>, name: Seq<char>)
    requires
        crate::types::find_field(fs, name) is None,
    ensures
        forall|k: int| 0 <= k < fs.len() ==> #[trigger] fs[k].name != name,
    decreases fs.len(),
{
    if fs.len() > 0 {
        lemma_find_field_none(fs.drop_first(), name);
        assert forall|k: int| 0 <= k < fs.len() implies #[trigger] fs[k].name != name by {
            if k > 0 {
                assert(fs[k] == fs.drop_first()[k - 1]);
            }
        }
    }
}

/// A dummy table: its name and its column names come from digests of
/// `counter` and of numbers derived from it; its primary key is the first column.
pub fn generate_table(counter: usize, fields_per_table: usize) -> (r: Table)
    requires
        fields_per_table > 0,
    ensures
        r@ == (TableModel {
            name: letters(seed_digest(counter as u64)),
            fields: dummy_fields(counter, fields_per_table as nat),
            primary_key: seq![dummy_fields(counter, fields_per_table as nat)[0].name],
        }),
{
    let name = hash_number_and_stringify(counter);
    let mut fields: Vec<Field> = Vec::new();
    let mut i: usize = 0;
    assert(fields_model(fields@) =~= dummy_fields(counter, 0));
    while i < fields_per_table
        invariant
            i <= fields_per_table,
            fields_model(fields@) == dummy_fields(counter, i as nat),
            unique_columns(fields_model(fields@)),
            i > 0 ==> fields@.len() > 0,
        decreases fields_per_table - i,
    {
        let field = Field::dummy(i.wrapping_add(counter.wrapping_mul(100)));
        assert(field@ == dummy_field(dummy_number(counter, i)));
        upsert_field_column(&mut fields, field);
        assert(fields@.len() > 0);
        i = i + 1;
    }
    let first = fields[0].name.clone();
    let mut pk: Vec<String> = Vec::new();
    pk.push(first);
    let t = Table::new(name, fields, TableExtra::new_with_pk(pk));
    assert(t@.primary_key =~= seq![dummy_fields(counter, fields_per_table as nat)[0].name]);
    t
}

} // verus!
