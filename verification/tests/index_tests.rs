use ubercollec::index::{
    count_sql, filter_clauses, fts_query, index_row, labels_sql, order_clause, resolve_genre_annee,
    search_sql, SearchFilters, SqlValue,
};
use ubercollec::model::{CoteConfig, FieldDef, FieldType, Item, Schema, SelectOption, Series, Statut};
use ubercollec::value::{StrMap, Value};

fn field(key: &str, t: FieldType, required: bool) -> FieldDef {
    FieldDef { key: key.to_string(), label: key.to_string(), field_type: t, required, options: Vec::new(), max: None }
}

fn bd_schema() -> Schema {
    let mut genre = field("genre", FieldType::Select, false);
    genre.options = vec![SelectOption { value: "Mangas - Shônen".into(), code: Some("SHONEN".into()) }];
    Schema {
        name: "BD".to_string(),
        id_prefix: "BD".to_string(),
        source: None,
        cote: Some(CoteConfig { year_field: "date_parution".into(), genre_field: "genre".into() }),
        fields: vec![
            field("titre", FieldType::Text, true),
            field("serie", FieldType::SeriesRef, false),
            genre,
            field("date_parution", FieldType::Date, false),
        ],
    }
}

fn merus() -> Item {
    let mut fields = StrMap::new();
    fields.insert("titre".to_string(), Value::Str("L'identité de Merus".into()));
    fields.insert("genre".to_string(), Value::Str("Mangas - Shônen".into()));
    fields.insert("date_parution".to_string(), Value::Str("2020-11-04".into()));
    fields.insert(
        "serie".to_string(),
        Value::Object(vec![
            ("id".to_string(), Value::Str("dragon-ball-super".into())),
            ("tome".to_string(), Value::Number("12".into())),
        ]),
    );
    Item {
        id: "BD-00001".into(),
        cote: Some("2020-SHONEN-0001".into()),
        statut: Statut::Possede,
        emplacement: None,
        etiquette: None,
        date_ajout: "2026-07-03".into(),
        fields,
    }
}

#[test]
fn series_resolved_in_list_and_search() {
    let series = vec![Series { id: "dragon-ball-super".into(), nom: "Dragon Ball Super".into(), terminee: false }];
    let r = index_row(&bd_schema(), &series, &merus());
    assert_eq!(r.serie_nom.as_deref(), Some("Dragon Ball Super"));
    assert_eq!(r.serie_tome, Some(12));
    assert_eq!(r.titre, "L'identité de Merus");
    assert_eq!(r.statut, "possede");
    assert!(r.content.contains("Dragon Ball Super"), "{}", r.content);
}

#[test]
fn genre_and_year_come_from_the_cote_fields() {
    let (genre, annee) = resolve_genre_annee(&bd_schema(), &merus());
    assert_eq!(genre.as_deref(), Some("Mangas - Shônen"));
    assert_eq!(annee, Some(2020));
}

#[test]
fn fts_query_quotes_every_word() {
    assert_eq!(fts_query("l'usine \"guillemets\" (x)"), "\"l'usine\"* \"guillemets\"* \"(x)\"*");
    assert_eq!(fts_query("  last  "), "\"last\"*");
    assert_eq!(fts_query(""), "");
}

#[test]
fn order_clause_accepts_only_known_keys() {
    assert_eq!(order_clause(Some("annee"), false, false), "i.annee IS NULL, i.annee ASC, i.titre COLLATE NOCASE");
    assert_eq!(order_clause(Some("titre"), true, false), "i.titre COLLATE NOCASE DESC");
    assert_eq!(order_clause(Some("evil; DROP"), false, true), "rank");
    assert_eq!(
        order_clause(Some("evil; DROP"), false, false),
        "i.serie_nom IS NULL, i.serie_nom COLLATE NOCASE, i.serie_tome, i.titre COLLATE NOCASE"
    );
}

#[test]
fn structured_filters() {
    let f = SearchFilters { statut: None, genre: Some("Science-Fiction".into()), annee: Some(1998), serie: None };
    let (clauses, params) = filter_clauses(&f);
    assert_eq!(clauses, " AND i.genre = :genre AND i.annee = :annee");
    assert_eq!(params.len(), 2);
    assert_eq!(params[0].name, ":genre");
    assert!(matches!(&params[0].value, SqlValue::Text(t) if t == "Science-Fiction"));
    assert!(matches!(params[1].value, SqlValue::Int(1998)));
    let (none, p) = filter_clauses(&SearchFilters::default());
    assert!(none.is_empty() && p.is_empty());
}

#[test]
fn statut_filter() {
    let f = SearchFilters { statut: Some("souhaite".into()), genre: None, annee: None, serie: Some("uw1".into()) };
    let (clauses, params) = filter_clauses(&f);
    assert_eq!(clauses, " AND i.statut = :statut AND i.serie_id = :serie");
    assert_eq!(params[1].name, ":serie");
}

#[test]
fn queries_are_built_around_the_clauses() {
    assert!(search_sql(false, " AND x", "rank").contains("WHERE i.collection = :collection AND x"));
    assert!(search_sql(true, "", "rank").contains("items_fts MATCH :match"));
    assert_eq!(count_sql(false, ""), "SELECT COUNT(*) FROM items i WHERE i.collection = :collection");
    assert!(labels_sql(true).contains(" AND i.collection = :collection"));
    assert!(!labels_sql(false).contains(":collection"));
}
