use tsql::emit::{collection_sql, TransformSQL, TransformTSQL};
use tsql::error::TsqlError;
use tsql::parse_str;
use tsql::types::DataType;

const TYPES: &str = "table All {  int lorem,  bool ipsum,  bigint dolor,  date sit,  datetime amet,  time consetetur,  double elitr,  float sed,  uuid diam,  varchar(16000) nonumy,  char(200) eiromod,  text(1024) labore,  decimal(24, 4) theodor,};";

const PK: &str = "@primary_key(id)\ntable Human {\n  int id,\n  varchar(200) name,\n};\n@primary_key(start, end)\ntable Termin {\n  datetime start,\n  datetime end,\n};\n";

#[test]
fn e2e_all_types() {
    let out = parse_str(TYPES);
    assert!(out.is_ok());

    let tables = out.unwrap();

    let all_table = tables.get("All");
    assert!(all_table.is_some());
    let table = all_table.unwrap();

    println!("{table:?}");

    assert_eq!(table.get_field("lorem").unwrap().datatype(), &DataType::Int);
    assert_eq!(table.get_field("ipsum").unwrap().datatype(), &DataType::Bool);
    assert_eq!(table.get_field("dolor").unwrap().datatype(), &DataType::BigInt);
    assert_eq!(table.get_field("sit").unwrap().datatype(), &DataType::Date);
    assert_eq!(table.get_field("amet").unwrap().datatype(), &DataType::DateTime);
    assert_eq!(table.get_field("consetetur").unwrap().datatype(), &DataType::Time);
    assert_eq!(table.get_field("elitr").unwrap().datatype(), &DataType::Double);
    assert_eq!(table.get_field("sed").unwrap().datatype(), &DataType::Float);
    assert_eq!(table.get_field("diam").unwrap().datatype(), &DataType::Uuid);
    assert_eq!(table.get_field("nonumy").unwrap().datatype(), &DataType::VarChar(16000));
    assert_eq!(table.get_field("eiromod").unwrap().datatype(), &DataType::Char(200));
    assert_eq!(table.get_field("labore").unwrap().datatype(), &DataType::Text(1024));
    assert_eq!(table.get_field("theodor").unwrap().datatype(), &DataType::Decimal(24, 4));
}

#[test]
fn e2e_parse_pks() {
    let out = parse_str(PK);
    assert!(out.is_ok());

    let tables = out.unwrap();

    let all_table = tables.get("Human");
    assert!(all_table.is_some());
    let table = all_table.unwrap();
    assert_eq!(table.primary_keys(), &vec!["id"]);

    let all_table = tables.get("Termin");
    assert!(all_table.is_some());
    let table = all_table.unwrap();
    assert_eq!(table.primary_keys(), &vec!["start", "end"]);
}

fn sql_of(text: &str, name: &str) -> String {
    let tables = parse_str(text).unwrap();
    let mut out = String::new();
    tables.get(name).unwrap().transform_into_sql(&mut out);
    out
}

#[test]
fn single_table_all_primitives() {
    let tables = parse_str(TYPES).unwrap();
    let table = tables.get("All").unwrap();
    assert_eq!(table.fields.len(), 13);
    let sql = sql_of(TYPES, "All");
    assert_eq!(
        sql,
        "CREATE TABLE All (\nlorem int,\nipsum boolean,\ndolor bigint,\nsit date,\namet datetime,\nconsetetur time,\nelitr double,\nsed float,\ndiam uuid,\nnonumy varchar(16000),\neiromod char(200),\nlabore text(1024),\ntheodor decimal(24, 4),\nPRIMARY KEY ()\n);\n"
    );
}

#[test]
fn composite_primary_key() {
    let text = "@primary_key(start, end)  table Termin { datetime start, datetime end, };";
    let tables = parse_str(text).unwrap();
    let table = tables.get("Termin").unwrap();
    assert_eq!(table.primary_keys(), &vec!["start", "end"]);
    let sql = sql_of(text, "Termin");
    assert!(sql.ends_with("PRIMARY KEY (start,end)\n);\n"));
}

const PETS: &str = "@primary_key(id) table Human { int id, }; table Pet { @foreign_key() _ owner, varchar(32) name, };";

#[test]
fn foreign_key_expansion() {
    let tables = parse_str(PETS).unwrap();
    let pet = tables.get("Pet").unwrap();
    let owner = pet.get_field("owner_id").unwrap();
    assert_eq!(owner.datatype(), &DataType::Int);
    let (table, column) = owner.foreign_key_reference.as_ref().unwrap();
    assert_eq!(table, "Human");
    assert_eq!(column.name, "id");
    assert_eq!(column.datatype(), &DataType::Int);
    assert!(pet.get_field("owner").is_none());
    let sql = sql_of(PETS, "Pet");
    assert_eq!(
        sql,
        "CREATE TABLE Pet (\nowner_id int,\nname varchar(32),\nFOREIGN KEY (owner_id) REFERENCES Human(id),\nPRIMARY KEY ()\n);\n"
    );
}

#[test]
fn foreign_key_to_composite_key() {
    let text = "@primary_key(start, end) table Termin { datetime start, datetime end, };\ntable Note { @foreign_key() Termin at, text(10) body, @foreign_key() Termin until, };";
    let sql = sql_of(text, "Note");
    assert_eq!(
        sql,
        "CREATE TABLE Note (\nat_start datetime,\nat_end datetime,\nbody text(10),\nuntil_start datetime,\nuntil_end datetime,\nFOREIGN KEY (at_start,at_end,until_start,until_end) REFERENCES Termin(start,end,start,end),\nPRIMARY KEY ()\n);\n"
    );
}

#[test]
fn named_foreign_key_type() {
    let text = "@primary_key(id) table Human { int id, };\ntable Pet { @foreign_key() Human owner, varchar(32) name, };";
    let sql = sql_of(text, "Pet");
    assert!(sql.contains("FOREIGN KEY (owner_id) REFERENCES Human(id),\n"));
}

#[test]
fn open_foreign_key_type_with_several_candidates() {
    let text = "@primary_key(id) table Human { int id, }; @primary_key(id) table Shop { int id, }; table Pet { @foreign_key() _ owner, };";
    assert_eq!(
        parse_str(text).unwrap_err(),
        TsqlError::UnresolvedForeignKey("Pet".to_string(), "Owner".to_string())
    );
    let text = "@primary_key(id) table Human { int id, }; @primary_key(id) table Shop { int id, }; table Pet { @foreign_key() _ shop, };";
    let tables = parse_str(text).unwrap();
    assert!(tables.get("Pet").unwrap().get_field("shop_id").is_some());
}

#[test]
fn open_foreign_key_type_names_table_after_field() {
    let text = "@primary_key(id) table Owner { uuid id, }; table Pet { @foreign_key() _ owner, };";
    let tables = parse_str(text).unwrap();
    let pet = tables.get("Pet").unwrap();
    assert_eq!(pet.get_field("owner_id").unwrap().datatype(), &DataType::Uuid);
}

#[test]
fn out_of_order_declarations() {
    let text = "table Pet { @foreign_key() _ owner, varchar(32) name, }; @primary_key(id) table Human { int id, };";
    let tables = parse_str(text).unwrap();
    let forward = parse_str(PETS).unwrap();
    assert_eq!(collection_sql(&tables), collection_sql(&forward));
    assert_eq!(tables.len(), 2);
    assert_eq!(tables.tables[0].name, "Human");
    assert_eq!(tables.tables[1].name, "Pet");
    let pet = tables.get("Pet").unwrap();
    assert_eq!(pet.get_field("owner_id").unwrap().datatype(), &DataType::Int);
}

#[test]
fn order_follows_references_not_names() {
    let text = "@primary_key(id) table Zoo { int id, }; @primary_key(id) table Animal { int id, @foreign_key() Zoo home, };";
    let tables = parse_str(text).unwrap();
    assert_eq!(tables.tables[0].name, "Animal");
    let animal = tables.get("Animal").unwrap();
    assert_eq!(animal.get_field("home_id").unwrap().datatype(), &DataType::Int);
}

#[test]
fn cycle_detection() {
    let text = "table A { @foreign_key() _ b, }; table B { @foreign_key() _ a, };";
    match parse_str(text) {
        Err(TsqlError::ForeignKeyCycle(names)) => {
            assert_eq!(names, vec!["A".to_string(), "B".to_string()]);
        },
        other => panic!("expected a cycle, got {:?}", other),
    }
}

#[test]
fn unresolvable_foreign_key() {
    let text = "table Pet { @foreign_key() _ owner, };";
    assert_eq!(
        parse_str(text).unwrap_err(),
        TsqlError::UnresolvedForeignKey("Pet".to_string(), "Owner".to_string())
    );
}

#[test]
fn varchar_bounds() {
    assert!(parse_str("table T { varchar(0) a, };").is_ok());
    assert!(parse_str("table T { varchar(65535) a, };").is_ok());
    assert_eq!(parse_str("table T { varchar(65536) a, };").unwrap_err(), TsqlError::DataTypeDecodeError(0));
}

#[test]
fn decimal_bounds() {
    assert!(parse_str("table T { decimal(0,0) a, };").is_ok());
    assert!(parse_str("table T { decimal(255,255) a, };").is_ok());
    assert_eq!(parse_str("table T { decimal(256,0) a, };").unwrap_err(), TsqlError::DataTypeDecodeError(0));
}

#[test]
fn empty_primary_key() {
    let tables = parse_str("@primary_key() table T { int a, };").unwrap();
    assert!(tables.get("T").unwrap().primary_keys().is_empty());
}

#[test]
fn missing_trailing_comma() {
    assert_eq!(parse_str("table T { int a, int b };").unwrap_err(), TsqlError::LexError(0));
    assert_eq!(parse_str("table T { int a, }; table U { int b };").unwrap_err(), TsqlError::LexError(20));
}

#[test]
fn missing_primary_key_field() {
    assert_eq!(
        parse_str("@primary_key(id) table T { int a, };").unwrap_err(),
        TsqlError::MissingPrimaryKeyField("T".to_string(), "id".to_string())
    );
}

#[test]
fn sentinel_types_are_refused() {
    assert_eq!(
        parse_str("table T { _ a, };").unwrap_err(),
        TsqlError::UnknownTypeInResolved("T".to_string(), "a".to_string())
    );
    assert_eq!(
        parse_str("@primary_key(id) table U { int id, }; table T { U a, };").unwrap_err(),
        TsqlError::UnknownTypeInResolved("T".to_string(), "a".to_string())
    );
    assert_eq!(
        parse_str("table T { @foreign_key() int a, };").unwrap_err(),
        TsqlError::UnknownTypeInResolved("T".to_string(), "a".to_string())
    );
}

#[test]
fn expanded_name_collision() {
    let text = "@primary_key(id) table Human { int id, }; table Pet { int owner_id, @foreign_key() Human owner, };";
    assert_eq!(
        parse_str(text).unwrap_err(),
        TsqlError::DuplicateField("Pet".to_string(), "owner_id".to_string())
    );
}

#[test]
fn duplicate_tables_refused_later_field_wins() {
    assert_eq!(
        parse_str("table T { int a, }; table T { uuid c, };").unwrap_err(),
        TsqlError::DuplicateTable("T".to_string())
    );
    let tables = parse_str("table T { int a, bool b, uuid a, };").unwrap();
    let t = tables.get("T").unwrap();
    assert_eq!(t.fields.len(), 2);
    assert_eq!(t.fields[0].name, "a");
    assert_eq!(t.get_field("a").unwrap().datatype(), &DataType::Uuid);
}

#[test]
fn empty_input_and_blanks() {
    assert_eq!(parse_str("").unwrap().len(), 0);
    assert_eq!(parse_str(" \n\t ").unwrap().len(), 0);
    assert!(parse_str("table T {};").is_err());
    assert!(parse_str("tableT { int a, };").is_err());
}

#[test]
fn keyword_without_its_arguments_is_refused() {
    assert_eq!(parse_str("table T { varchar a, };").unwrap_err(), TsqlError::DataTypeDecodeError(0));
    assert_eq!(parse_str("table T { decimal(5) a, };").unwrap_err(), TsqlError::DataTypeDecodeError(0));
    let text = "@primary_key(v) table varchar { int v, }; table T { @foreign_key() varchar v, };";
    assert!(parse_str(text).is_err());
}

#[test]
fn compiling_twice_gives_the_same_sql() {
    let a = collection_sql(&parse_str(PETS).unwrap());
    let b = collection_sql(&parse_str(PETS).unwrap());
    assert_eq!(a, b);
    assert!(a.starts_with("CREATE TABLE Human (\nid int,\nPRIMARY KEY (id)\n);\nCREATE TABLE Pet ("));
}

#[test]
fn tsql_output_parses_back() {
    let text = "@primary_key(start, end) table Termin { datetime start, datetime end, decimal(12, 3) price, char(3) code, };";
    let tables = parse_str(text).unwrap();
    let mut tsql = String::new();
    tables.get("Termin").unwrap().transform_into_tsql(&mut tsql);
    assert_eq!(
        tsql,
        "@primary_key(start, end)\ntable Termin {\n\tdatetime start,\n\tdatetime end,\n\tdecimal(12, 3) price,\n\tchar(3) code,\n};\n"
    );
    let again = parse_str(&tsql).unwrap();
    assert_eq!(collection_sql(&again), collection_sql(&tables));
}

#[test]
fn references_point_at_primary_key_columns() {
    let tables = parse_str(PETS).unwrap();
    for t in &tables.tables {
        for pk in t.primary_keys() {
            assert!(t.get_field(pk).is_some());
        }
        for f in &t.fields {
            if let Some((r, col)) = &f.foreign_key_reference {
                let target = tables.get(r).unwrap();
                assert!(target.primary_keys().contains(&col.name));
                assert!(f.name.ends_with(&format!("_{}", col.name)));
            }
        }
    }
}

#[test]
fn tsql_of_collection_compiles_back() {
    let text = "table B { int b, varchar(7) w, }; @primary_key(a) table A { uuid a, text(3) t, }; table C { decimal(5, 2) c, };";
    let tables = parse_str(text).unwrap();
    let tsql = tsql::emit::collection_tsql(&tables);
    let again = parse_str(&tsql).unwrap();
    assert_eq!(again.len(), 3);
    assert_eq!(collection_sql(&again), collection_sql(&tables));
    assert_eq!(tsql::emit::collection_tsql(&again), tsql);
}

#[test]
fn compile_gives_sql_of_all_tables() {
    let sql = tsql::compile(PETS).unwrap();
    assert_eq!(sql, collection_sql(&parse_str(PETS).unwrap()));
    assert!(tsql::compile("table T { int a };").is_err());
}

#[test]
fn sql_comment_line() {
    let mut out = String::from("x\n");
    tsql::emit::writeln_sql_comment(&mut out, "generated");
    assert_eq!(out, "x\n-- generated\n");
}

#[test]
fn all_types_round_trip_through_tsql() {
    let tables = parse_str(TYPES).unwrap();
    let tsql = tsql::emit::collection_tsql(&tables);
    assert!(tsql.contains("\tboolean ipsum,\n"));
    let without_bool = TYPES.replace("  bool ipsum,", "");
    let tables = parse_str(&without_bool).unwrap();
    let tsql = tsql::emit::collection_tsql(&tables);
    let again = parse_str(&tsql.replace('\n', "")).unwrap();
    assert_eq!(collection_sql(&again), collection_sql(&tables));
}
