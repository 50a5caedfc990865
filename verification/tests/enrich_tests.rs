use ubercollec::enrich::{
    cover_path, enrich_setup, finish_item, finish_run, item_error, merge_candidates, merge_fields, plan_item,
    summary_message, tally, EnrichProgress, ItemPlan, Lookup, Tally,
};
use ubercollec::model::{CoteConfig, FieldDef, FieldType, Item, Schema, Statut};
use ubercollec::hydrate::Candidate;
use ubercollec::value::{StrMap, Value};

fn field(key: &str, t: FieldType, required: bool) -> FieldDef {
    FieldDef { key: key.to_string(), label: key.to_string(), field_type: t, required, options: Vec::new(), max: None }
}

fn schema(source: &str) -> Schema {
    Schema {
        name: "BD".to_string(),
        id_prefix: "BD".to_string(),
        source: Some(source.to_string()),
        cote: Some(CoteConfig { year_field: "date_parution".into(), genre_field: "genre".into() }),
        fields: vec![
            field("titre", FieldType::Text, true),
            field("genre", FieldType::Select, false),
            field("date_parution", FieldType::Date, false),
            field("ean", FieldType::Text, false),
            field("couverture", FieldType::Image, false),
        ],
    }
}

fn item(pairs: &[(&str, &str)]) -> Item {
    let mut fields = StrMap::new();
    for (k, v) in pairs {
        fields.insert(k.to_string(), Value::Str(v.to_string()));
    }
    Item {
        id: "BD-00007".into(),
        cote: None,
        statut: Statut::Possede,
        emplacement: None,
        etiquette: None,
        date_ajout: "2026-07-03".into(),
        fields,
    }
}

#[test]
fn setup_needs_an_image_field_and_a_tmdb_key_for_films() {
    let s = enrich_setup(&schema("bd"), false).unwrap();
    assert_eq!(s.image_key, "couverture");
    assert_eq!(s.title_key, "titre");
    assert!(enrich_setup(&schema("dvd"), false).unwrap_err().starts_with("clé d'API TMDB"));
    let mut no_image = schema("bd");
    no_image.fields.pop();
    assert_eq!(enrich_setup(&no_image, true).unwrap_err(), "le schéma n'a pas de champ image");
}

#[test]
fn records_are_planned_by_what_they_miss() {
    let sc = schema("bd");
    let setup = enrich_setup(&sc, false).unwrap();
    let done = item(&[("titre", "T"), ("couverture", "x.webp"), ("genre", "Humour")]);
    assert!(matches!(plan_item(&setup, &sc, &done, "BD-00007").1, ItemPlan::Skip));
    let no_ean = item(&[("titre", "T")]);
    let (titre, plan) = plan_item(&setup, &sc, &no_ean, "BD-00007");
    assert_eq!(titre, "T");
    assert!(matches!(plan, ItemPlan::NoEan));
    let with_ean = item(&[("ean", "978-2-203-06466-9")]);
    let (titre, plan) = plan_item(&setup, &sc, &with_ean, "BD-00007");
    assert_eq!(titre, "BD-00007");
    match plan {
        ItemPlan::Lookup(Lookup::Bnf { ean }) => assert_eq!(ean, "9782203064669"),
        other => panic!("{other:?}"),
    }
}

#[test]
fn merge_never_overwrites_a_filled_field() {
    let mut fields = StrMap::new();
    fields.insert("titre".to_string(), Value::Str("Mine".into()));
    fields.insert("editeur".to_string(), Value::Str("  ".into()));
    let mut from = StrMap::new();
    from.insert("titre".to_string(), Value::Str("Theirs".into()));
    from.insert("editeur".to_string(), Value::Str("Dargaud".into()));
    from.insert("ean".to_string(), Value::Str("123".into()));
    assert!(merge_fields(&mut fields, from));
    assert!(matches!(fields.get("titre"), Some(Value::Str(s)) if s == "Mine"));
    assert!(matches!(fields.get("editeur"), Some(Value::Str(s)) if s == "Dargaud"));
    assert!(matches!(fields.get("ean"), Some(Value::Str(s)) if s == "123"));
    let mut again = StrMap::new();
    again.insert("titre".to_string(), Value::Str("Other".into()));
    assert!(!merge_fields(&mut fields, again));
}

#[test]
fn progress_counts_and_messages() {
    let mut p = EnrichProgress::default();
    tally(&mut p, Tally::NoEan, None);
    tally(&mut p, Tally::Error, Some("boom".into()));
    finish_item(&mut p, true, true);
    assert_eq!((p.processed, p.no_ean, p.errors, p.enriched, p.covers), (3, 1, 1, 1, 1));
    assert_eq!(p.last_error.as_deref(), Some("boom"));
    finish_run(&mut p, Err("réseau".into()));
    assert!(p.done && !p.running);
    assert_eq!(p.errors, 2);
    assert_eq!(item_error("Akira", "404"), "Akira : 404");
    assert_eq!(cover_path("bd", "BD-00001"), "images/bd/BD-00001.webp");
    assert_eq!(summary_message("bd", 0, 0), None);
    assert_eq!(summary_message("bd", 3, 2).as_deref(), Some("Enrichissement bd : 3 fiches, 2 couvertures"));
}

fn candidate(titre: Option<&str>, date: Option<&str>) -> Candidate {
    Candidate {
        source: "MusicBrainz".to_string(),
        titre: titre.map(|t| t.to_string()),
        auteurs: Vec::new(),
        illustrateurs: Vec::new(),
        editeur: None,
        date_parution: date.map(|d| d.to_string()),
        ean: None,
        synopsis: None,
        cover_url: None,
        score: None,
        genre: None,
        acteurs: Vec::new(),
    }
}

#[test]
fn merge_candidates_first_non_empty_wins() {
    let sc = schema("cd");
    let mut fields = StrMap::new();
    fields.insert("titre".to_string(), Value::Str(" ".into()));
    let candidates = vec![candidate(Some("Akira"), None), candidate(Some("Autre"), Some("1984-12-01"))];
    assert!(merge_candidates(&sc, &mut fields, &candidates));
    assert!(matches!(fields.get("titre"), Some(Value::Str(s)) if s == "Akira"));
    assert!(matches!(fields.get("date_parution"), Some(Value::Str(s)) if s == "1984-12-01"));
    assert!(!merge_candidates(&sc, &mut fields, &candidates));
}
