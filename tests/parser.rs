use tsql::parser::grammar::{
    parse_single_table_field, parse_table_body, parse_table_extra, parse_table_fields,
    RawParsedField,
};
use tsql::parser::types::{FieldExtra, TagHelper};

fn chars(s: &str) -> Vec<char> {
    s.chars().collect()
}

fn field(extra: Option<FieldExtra>, ty: &str, args: &[&str], name: &str) -> RawParsedField {
    RawParsedField {
        field_extra: extra,
        field_type: ty.to_string(),
        field_type_arguments: args.iter().map(|a| a.to_string()).collect(),
        field_name: name.to_string(),
    }
}

#[test]
fn parser_just_works() {
    let s = chars("  int number");
    let out = parse_single_table_field(&s, 0);
    assert!(out.is_some());
    let out = out.unwrap();
    assert_eq!(out.0, s.len());
    assert_eq!(out.1, field(None, "int", &[], "number"));

    let s = chars("  varchar(512) text");
    let out = parse_single_table_field(&s, 0).unwrap();
    assert_eq!(out.0, s.len());
    assert_eq!(out.1, field(None, "varchar", &["512"], "text"));

    let s = chars("  decimal(12, 3) number");
    let out = parse_single_table_field(&s, 0).unwrap();
    assert_eq!(out.0, s.len());
    assert_eq!(out.1, field(None, "decimal", &["12", "3"], "number"));

    let s = chars("  @foreign_key()  int number");
    let out = parse_single_table_field(&s, 0).unwrap();
    assert_eq!(out.0, s.len());
    assert_eq!(out.1, field(Some(FieldExtra::ForeignKey), "int", &[], "number"));
}

#[test]
fn parse_table_fields_just_works() {
    let s = chars("  int number,  varchar(512) text,  @foreign_key()  _ other_table,");
    let out = parse_table_fields(&s, 0);
    assert!(out.is_some());
    let out = out.unwrap();
    assert_eq!(out.0, s.len());
    assert_eq!(out.1.len(), 3);
    assert_eq!(
        out.1,
        vec![
            field(None, "int", &[], "number"),
            field(None, "varchar", &["512"], "text"),
            field(Some(FieldExtra::ForeignKey), "_", &[], "other_table"),
        ]
    );
}

#[test]
fn parse_table_fields_needs_final_comma() {
    let s = chars("  int number,  int other");
    assert!(parse_table_fields(&s, 0).is_none());
}

#[test]
fn parse_table_body_just_works() {
    let s = chars("{abc()[]_%$§%}");
    let (open, close) = parse_table_body(&s, 0).unwrap();
    assert_eq!(close, s.len() - 1);
    let body: String = s[open + 1..close].iter().collect();
    assert_eq!(body, "abc()[]_%$§%");

    let s = chars(" {abc()[]_%$§%}");
    let (open, close) = parse_table_body(&s, 0).unwrap();
    assert_eq!(close, s.len() - 1);
    let body: String = s[open + 1..close].iter().collect();
    assert_eq!(body, "abc()[]_%$§%");

    let s = chars("{    }");
    let (open, close) = parse_table_body(&s, 0).unwrap();
    let body: String = s[open + 1..close].iter().collect();
    assert_eq!(body, "    ");

    let s = chars("{}");
    assert_eq!(parse_table_body(&s, 0), None);
}

#[test]
fn parse_table_extra_just_works() {
    let s = chars("table People {};");
    assert_eq!(parse_table_extra(&s, 0), (0, None));

    let s = chars("@primary_key()  table People {};");
    let (end, extra) = parse_table_extra(&s, 0);
    let rest: String = s[end..].iter().collect();
    assert_eq!(rest, "  table People {};");
    assert_eq!(extra, Some((TagHelper::PrimaryKey, vec![])));

    let s = chars("@primary_key(id)  table People {  int id, };");
    let (end, extra) = parse_table_extra(&s, 0);
    let rest: String = s[end..].iter().collect();
    assert_eq!(rest, "  table People {  int id, };");
    assert_eq!(extra, Some((TagHelper::PrimaryKey, vec!["id".to_string()])));

    let s = chars("@primary_key(id, other_field)  table People {  int id, int other_field, };");
    let (end, extra) = parse_table_extra(&s, 0);
    let rest: String = s[end..].iter().collect();
    assert_eq!(rest, "  table People {  int id, int other_field, };");
    assert_eq!(
        extra,
        Some((TagHelper::PrimaryKey, vec!["id".to_string(), "other_field".to_string()]))
    );
}
