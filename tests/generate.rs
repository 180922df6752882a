use tsql::generate::{generate_table, hash_number_and_stringify, u8s_to_string, GenerateDummy};
use tsql::types::{DataType, Field};

#[test]
fn u8s_to_string_just_works() {
    assert_eq!(u8s_to_string(&[0, 1, 2, 3, 4]), "ABCDE".to_string());
    assert_eq!(u8s_to_string(&[24, 25, 26, 27, 28]), "ABCDE".to_string());
}

#[test]
fn hash_number_and_stringify_just_works() {
    assert_eq!(hash_number_and_stringify(1), hash_number_and_stringify(1));
    assert_ne!(hash_number_and_stringify(1), hash_number_and_stringify(2));
}

#[test]
fn digest_letters_have_the_digest_length() {
    let s = hash_number_and_stringify(7);
    assert_eq!(s.chars().count(), 32);
    assert!(s.chars().all(|c| ('A'..='X').contains(&c)));
}

#[test]
fn dummy_types_cycle() {
    assert_eq!(DataType::generate_dummy(0), DataType::Int);
    assert_eq!(DataType::generate_dummy(1), DataType::Double);
    assert_eq!(DataType::generate_dummy(2), DataType::VarChar(100));
    assert_eq!(DataType::generate_dummy(3), DataType::Char(6));
    assert_eq!(DataType::generate_dummy(4), DataType::Uuid);
    assert_eq!(DataType::generate_dummy(5), DataType::Int);
}

#[test]
fn dummy_field_is_named_by_digest() {
    let f = Field::generate_dummy(3);
    assert_eq!(f.name, hash_number_and_stringify(3));
    assert_eq!(f.datatype(), &DataType::Char(6));
    assert!(f.foreign_key_reference.is_none());
}

#[test]
fn generated_table_takes_first_field_as_key() {
    let t = generate_table(2, 3);
    assert_eq!(t.name, hash_number_and_stringify(2));
    assert_eq!(t.fields.len(), 3);
    assert_eq!(t.fields[0].name, hash_number_and_stringify(200));
    assert_eq!(t.fields[1].name, hash_number_and_stringify(201));
    assert_eq!(t.fields[2].datatype(), &DataType::VarChar(100));
    assert_eq!(t.primary_keys(), &vec![hash_number_and_stringify(200)]);
}
