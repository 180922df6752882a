use tsql::parser::types::{FieldExtra, FieldType, RawDataType, RawField, RawTable};
use tsql::types::TableExtra;

#[test]
fn raw_table() {
    let table = RawTable { extra: TableExtra::default(), name: "".to_string(), fields: Vec::new() };

    assert_eq!(table.has_fk(), false);
    assert_eq!(table.fk_tables(), Vec::<String>::new());

    let table = RawTable {
        extra: TableExtra::default(),
        name: "".to_string(),
        fields: vec![
            FieldType::Virtual((
                RawField {
                    name: "name".to_string(),
                    datatype: RawDataType::ForeignKeyTable("human".to_string()),
                },
                FieldExtra::ForeignKey,
            )),
            FieldType::Real(RawField { name: "bday".to_string(), datatype: RawDataType::DateTime }),
        ],
    };

    assert_eq!(table.has_fk(), true);
    assert_eq!(table.fk_tables(), vec!["human".to_string()]);
}

#[test]
fn open_foreign_key_names_table_after_field() {
    let table = RawTable {
        extra: TableExtra::default(),
        name: "Pet".to_string(),
        fields: vec![FieldType::Virtual((
            RawField { name: "owner".to_string(), datatype: RawDataType::Unknown },
            FieldExtra::ForeignKey,
        ))],
    };
    assert_eq!(table.fk_tables(), vec!["Owner".to_string()]);
}

#[test]
fn arguments_len_0() {
    let fields = [
        ("int", RawDataType::Int),
        ("bool", RawDataType::Bool),
        ("bigint", RawDataType::BigInt),
        ("date", RawDataType::Date),
        ("datetime", RawDataType::DateTime),
        ("time", RawDataType::Time),
        ("double", RawDataType::Double),
        ("float", RawDataType::Float),
        ("uuid", RawDataType::Uuid),
        ("_", RawDataType::Unknown),
        ("custom_data_type", RawDataType::ForeignKeyTable("custom_data_type".to_string())),
    ];

    for (raw, result) in fields {
        assert_eq!(RawDataType::parse(raw, Vec::new()), Some(result));

        assert_eq!(RawDataType::parse(raw, vec![Default::default(); 4]), None);
    }
}

#[test]
fn arguments_number_parsing() {
    let u8_max = u8::MAX.to_string();
    let u16_max = u16::MAX.to_string();
    let min = "0".to_string();
    let wrong = vec!["a".to_string(), "abc".to_string(), u32::MAX.to_string()];

    assert_eq!(RawDataType::parse("varchar", vec![&min]), Some(RawDataType::VarChar(0)));
    assert_eq!(RawDataType::parse("varchar", vec![&u16_max]), Some(RawDataType::VarChar(u16::MAX)));
    assert_eq!(RawDataType::parse("char", vec![&min]), Some(RawDataType::Char(0)));
    assert_eq!(RawDataType::parse("char", vec![&u8_max]), Some(RawDataType::Char(u8::MAX)));
    assert_eq!(RawDataType::parse("text", vec![&min]), Some(RawDataType::Text(0)));
    assert_eq!(RawDataType::parse("text", vec![&u16_max]), Some(RawDataType::Text(u16::MAX)));
    for w in &wrong {
        assert_eq!(RawDataType::parse("varchar", vec![w]), None);
        assert_eq!(RawDataType::parse("char", vec![w]), None);
        assert_eq!(RawDataType::parse("text", vec![w]), None);
    }

    assert_eq!(RawDataType::parse("decimal", vec![&min, &min]), Some(RawDataType::Decimal(0, 0)));
    assert_eq!(
        RawDataType::parse("decimal", vec![&u8_max, &u8_max]),
        Some(RawDataType::Decimal(u8::MAX, u8::MAX))
    );
    for w1 in &wrong {
        for w2 in &wrong {
            assert_eq!(RawDataType::parse("decimal", vec![w1, w2]), None);
        }
    }
}

#[test]
fn argument_just_above_range_is_refused() {
    assert_eq!(RawDataType::parse("varchar", vec!["65536"]), None);
    assert_eq!(RawDataType::parse("char", vec!["256"]), None);
    assert_eq!(RawDataType::parse("decimal", vec!["256", "0"]), None);
    assert_eq!(RawDataType::parse("varchar", vec!["007"]), Some(RawDataType::VarChar(7)));
    assert_eq!(RawDataType::parse("int", vec!["1"]), None);
    assert_eq!(RawDataType::parse("varchar", Vec::new()), None);
    assert_eq!(RawDataType::parse("char", Vec::new()), None);
    assert_eq!(RawDataType::parse("text", vec!["1", "2"]), None);
    assert_eq!(RawDataType::parse("decimal", vec!["1"]), None);
}

#[test]
fn primary_key_can_be_edited() {
    let mut extra = TableExtra::new_with_pk(vec!["id".to_string()]);
    extra.primary_key_mut().push("other".to_string());
    assert_eq!(extra.primary_key(), &vec!["id".to_string(), "other".to_string()]);
}

#[test]
fn open_foreign_key_needs_its_table_filled_in() {
    let raw = RawTable {
        extra: TableExtra::default(),
        name: "Pet".to_string(),
        fields: vec![FieldType::Virtual((
            RawField { name: "owner".to_string(), datatype: RawDataType::Unknown },
            FieldExtra::ForeignKey,
        ))],
    };
    let parsed = tsql::types::TableCollection::new();
    assert_eq!(
        tsql::types::Table::parse(&raw, &parsed).unwrap_err(),
        tsql::error::TsqlError::UnknownTypeInResolved("Pet".to_string(), "owner".to_string())
    );
}
