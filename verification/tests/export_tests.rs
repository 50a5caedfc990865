use ubercollec::export::{cell, csv_header, csv_record, json_object, schema_columns, wants_json};
use ubercollec::index::IndexedItem;
use ubercollec::model::{FieldDef, FieldType, Schema};
use ubercollec::value::{to_json, Value};

fn field(key: &str, t: FieldType) -> FieldDef {
    FieldDef { key: key.to_string(), label: key.to_string(), field_type: t, required: false, options: Vec::new(), max: None }
}

fn bd_schema() -> Schema {
    Schema {
        name: "BD".to_string(),
        id_prefix: "BD".to_string(),
        source: None,
        cote: None,
        fields: vec![
            field("titre", FieldType::Text),
            field("serie", FieldType::SeriesRef),
            field("scenariste", FieldType::TextList),
            field("genre", FieldType::Select),
            field("date_parution", FieldType::Date),
        ],
    }
}

fn s(x: &str) -> Value {
    Value::Str(x.to_string())
}

fn row() -> IndexedItem {
    IndexedItem {
        collection: "bd".to_string(),
        id: "BD-00001".to_string(),
        titre: "Lastman T1".to_string(),
        cote: Some("2013-SF-0001".to_string()),
        statut: "possede".to_string(),
        emplacement: None,
        date_ajout: "2026-07-03".to_string(),
        serie_nom: Some("Lastman".to_string()),
        serie_tome: Some(1),
        annee: Some(2013),
        data: Value::Object(vec![
            ("titre".to_string(), s("Lastman T1")),
            ("genre".to_string(), s("Science-Fiction")),
            ("scenariste".to_string(), Value::Array(vec![s("Balak"), s("Bastien Vivès")])),
            ("date_parution".to_string(), s("2013-03-20")),
            (
                "serie".to_string(),
                Value::Object(vec![("id".to_string(), s("lastman")), ("tome".to_string(), Value::Number("1".into()))]),
            ),
        ]),
    }
}

#[test]
fn csv_export_roundtrips_headers_and_values() {
    let columns = schema_columns(&bd_schema());
    let header = csv_header(&columns).join(",");
    assert!(header.starts_with("id,cote,statut,emplacement,date_ajout,titre"));
    assert!(header.contains(",serie,tome,"));
    let record = csv_record(&columns, &row()).join(",");
    assert!(record.contains("BD-00001"));
    assert!(record.contains("2013-SF-0001"));
    assert!(record.contains("Balak ; Bastien Vivès"));
    assert!(record.contains("Lastman,1") || record.contains("Lastman,\"1\""));
}

#[test]
fn json_export_is_structured() {
    let obj = json_object(&bd_schema(), &row());
    assert!(matches!(obj.get("id"), Some(Value::Str(x)) if x == "BD-00001"));
    let text: String = to_json(&Value::Object(obj.entries.clone()));
    assert!(text.contains("\"scenariste\":[\"Balak\",\"Bastien Vivès\"]"), "{text}");
    assert!(text.contains("\"serie\":{\"nom\":\"Lastman\",\"tome\":1}"), "{text}");
    assert!(text.contains("\"emplacement\":null"), "{text}");
}

#[test]
fn cells_render_each_kind_of_value() {
    assert_eq!(cell(None), "");
    assert_eq!(cell(Some(&Value::Null)), "");
    assert_eq!(cell(Some(&Value::Bool(true))), "oui");
    assert_eq!(cell(Some(&Value::Bool(false))), "");
    assert_eq!(cell(Some(&Value::Number("4.5".into()))), "4.5");
    assert_eq!(cell(Some(&Value::Array(vec![s("a"), Value::Number("2".into())]))), "a ; 2");
}

#[test]
fn json_is_chosen_by_extension() {
    assert!(wants_json(Some("JSON")));
    assert!(wants_json(Some("json")));
    assert!(!wants_json(Some("csv")));
    assert!(!wants_json(None));
}

#[test]
fn json_export_is_an_indented_array() {
    let obj = json_object(&bd_schema(), &row());
    let text = ubercollec::export::json_array_text(vec![obj]);
    assert!(text.starts_with("[\n  {"), "{text}");
    assert!(text.contains("\"id\": \"BD-00001\""), "{text}");
}
