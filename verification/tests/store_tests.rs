use ubercollec::model::{Counters, CoteConfig, FieldDef, FieldType, Item, Schema, SelectOption, Series, Statut};
use ubercollec::store::{id_sequence, split_cote, Library};
use ubercollec::value::{StrMap, Value};

fn field(key: &str, label: &str, field_type: FieldType, required: bool) -> FieldDef {
    FieldDef {
        key: key.to_string(),
        label: label.to_string(),
        field_type,
        required,
        options: Vec::new(),
        max: None,
    }
}

fn bd_schema() -> Schema {
    let genres = [
        ("Science-Fiction", "SF"),
        ("Fantasy", "FANT"),
        ("Historique", "HIST"),
        ("Humour", "HUM"),
        ("Aventures Humoristiques", "AVHUM"),
        ("Aventure", "AVENT"),
        ("Polar", "POLAR"),
        ("Romans Graphiques", "GRAPH"),
        ("Comics", "COMIC"),
        ("Comics Super-héros", "SUPER"),
        ("Mangas - Seinen", "SEINEN"),
        ("Mangas - Shônen", "SHONEN"),
        ("Mangas - Shôjo", "SHOJO"),
        ("Jeunesse", "JEUN"),
        ("Érotique", "ERO"),
        ("Périodique", "PERIO"),
    ];
    let mut genre = field("genre", "Genre", FieldType::Select, false);
    genre.options = genres
        .iter()
        .map(|(v, c)| SelectOption { value: v.to_string(), code: Some(c.to_string()) })
        .collect();
    Schema {
        name: "BD".to_string(),
        id_prefix: "BD".to_string(),
        source: Some("bd".to_string()),
        cote: Some(CoteConfig {
            year_field: "date_parution".to_string(),
            genre_field: "genre".to_string(),
        }),
        fields: vec![
            field("titre", "Titre", FieldType::Text, true),
            field("serie", "Série", FieldType::SeriesRef, false),
            field("scenariste", "Scénariste(s)", FieldType::TextList, false),
            field("dessinateur", "Dessinateur(s)", FieldType::TextList, false),
            field("editeur", "Éditeur", FieldType::Text, false),
            field("collection_editeur", "Collection éditeur", FieldType::Text, false),
            genre,
            field("date_parution", "Date de parution", FieldType::Date, false),
            field("synopsis", "Synopsis", FieldType::Longtext, false),
            field("ean", "EAN / ISBN", FieldType::Text, false),
            field("couverture", "Couverture", FieldType::Image, false),
        ],
    }
}

fn fields(pairs: &[(&str, &str)]) -> StrMap<Value> {
    let mut m = StrMap::new();
    for (k, v) in pairs {
        m.insert(k.to_string(), Value::Str(v.to_string()));
    }
    m
}

fn create(schema: &Schema, counters: &mut Counters, statut: Statut, pairs: &[(&str, &str)]) -> Item {
    Library::create_item_on(schema, counters, statut, fields(pairs), "2026-07-03".to_string()).unwrap()
}

/// An edit as the application applies it: the fields, then a new shelf
/// mark when one is due.
fn update(schema: &Schema, counters: &mut Counters, item: &mut Item, statut: Statut, pairs: &[(&str, &str)]) {
    Library::update_item(schema, counters, item, statut, None, fields(pairs)).unwrap();
}

#[test]
fn create_library_seeds_fixed_collections() {
    let lib = Library::open("biblio".to_string(), true).unwrap();
    let found = vec!["livres", "bd", "jeux-video", "cd", "dvd"].into_iter().map(String::from).collect();
    assert_eq!(lib.collections(found), vec!["bd", "cd", "dvd", "jeux-video", "livres"]);
    assert_eq!(bd_schema().id_prefix, "BD");
}

#[test]
fn create_item_allocates_id_and_cote() {
    let schema = bd_schema();
    let mut counters = Counters::new();
    let item = create(
        &schema,
        &mut counters,
        Statut::Possede,
        &[("titre", "Lastman T1"), ("genre", "Science-Fiction"), ("date_parution", "2013-03-20")],
    );
    assert_eq!(item.id, "BD-00001");
    assert_eq!(item.cote.as_deref(), Some("2013-SF-0001"));

    let item2 = create(
        &schema,
        &mut counters,
        Statut::Possede,
        &[("titre", "Lastman T2"), ("genre", "Science-Fiction"), ("date_parution", "2013-06-12")],
    );
    assert_eq!(item2.id, "BD-00002");
    assert_eq!(item2.cote.as_deref(), Some("2013-SF-0002"));
}

#[test]
fn wishlist_item_gets_cote_only_when_owned() {
    let schema = bd_schema();
    let mut counters = Counters::new();
    let mut item = create(&schema, &mut counters, Statut::Souhaite, &[("titre", "Akira T1")]);
    assert!(item.cote.is_none());

    update(
        &schema,
        &mut counters,
        &mut item,
        Statut::Possede,
        &[("titre", "Akira T1"), ("genre", "Mangas - Seinen"), ("date_parution", "1990-03-01")],
    );
    assert_eq!(item.cote.as_deref(), Some("1990-SEINEN-0001"));
}

#[test]
fn changing_genre_regenerates_cote() {
    let schema = bd_schema();
    let mut counters = Counters::new();
    let mut item = create(
        &schema,
        &mut counters,
        Statut::Possede,
        &[("titre", "Universal War One"), ("genre", "Fantasy"), ("date_parution", "1998-01-01")],
    );
    assert_eq!(item.cote.as_deref(), Some("1998-FANT-0001"));
    let id = item.id.clone();

    update(
        &schema,
        &mut counters,
        &mut item,
        Statut::Possede,
        &[("titre", "Universal War One"), ("genre", "Science-Fiction"), ("date_parution", "1998-01-01")],
    );
    assert_eq!(item.cote.as_deref(), Some("1998-SF-0001"));
    assert_eq!(item.id, id, "l'ID interne ne change jamais");
}

#[test]
fn unknown_year_falls_back_to_0000() {
    let schema = bd_schema();
    let mut counters = Counters::new();
    let item = create(&schema, &mut counters, Statut::Possede, &[("titre", "Mystère"), ("genre", "Humour")]);
    assert_eq!(item.cote.as_deref(), Some("0000-HUM-0001"));
}

#[test]
fn required_field_is_enforced() {
    let schema = bd_schema();
    let mut counters = Counters::new();
    let err = Library::create_item(&schema, &mut counters, Statut::Possede, fields(&[])).unwrap_err();
    assert!(err.contains("obligatoire"), "{err}");
    assert_eq!(err, "le champ « Titre » est obligatoire");
    assert_eq!(counters.next_id, 0);
}

#[test]
fn counters_rebuild_matches_reality() {
    let schema = bd_schema();
    let mut counters = Counters::new();
    let mut items = Vec::new();
    for i in 0..3 {
        let titre = format!("Tome {i}");
        items.push(create(
            &schema,
            &mut counters,
            Statut::Possede,
            &[("titre", titre.as_str()), ("genre", "Humour"), ("date_parution", "2020-01-01")],
        ));
    }
    // The counters file is lost: rebuilt by scanning the items.
    let mut rebuilt = Library::rebuild_counters(&items);
    let item = create(
        &schema,
        &mut rebuilt,
        Statut::Possede,
        &[("titre", "Tome 4"), ("genre", "Humour"), ("date_parution", "2020-01-01")],
    );
    assert_eq!(item.id, "BD-00004");
    assert_eq!(item.cote.as_deref(), Some("2020-HUM-0004"));
}

#[test]
fn regenerate_stale_cotes_after_code_change() {
    let mut schema = bd_schema();
    let mut counters = Counters::new();
    let item = create(
        &schema,
        &mut counters,
        Statut::Possede,
        &[("titre", "Thorgal T1"), ("genre", "Fantasy"), ("date_parution", "1980-03-01")],
    );
    assert_eq!(item.cote.as_deref(), Some("1980-FANT-0001"));
    let mut items = vec![item];

    // The user changes the code of the Fantasy genre in the schema.
    let genre = schema.fields.iter_mut().find(|f| f.key == "genre").unwrap();
    genre.options.iter_mut().find(|o| o.value == "Fantasy").unwrap().code = Some("FSY".into());

    let changes = Library::regenerate_stale_cotes(&schema, &mut counters, &mut items);
    assert_eq!(changes.len(), 1);
    assert_eq!(changes[0].old.as_deref(), Some("1980-FANT-0001"));
    assert_eq!(changes[0].new, "1980-FSY-0001");
    assert_eq!(items[0].cote.as_deref(), Some("1980-FSY-0001"));

    // Idempotent: nothing left to regenerate.
    assert!(Library::regenerate_stale_cotes(&schema, &mut counters, &mut items).is_empty());
}

#[test]
fn series_registry_roundtrip() {
    let all = Library::upsert_series(
        Vec::new(),
        Series { id: "lastman".into(), nom: "Lastman".into(), terminee: true },
    );
    assert_eq!(all.len(), 1);
    assert!(all[0].terminee);
}

#[test]
fn upsert_series_replaces_and_sorts_by_name() {
    let mut all = Vec::new();
    for (id, nom) in [("b", "blacksad"), ("a", "Astérix"), ("c", "Corto")] {
        all = Library::upsert_series(all, Series { id: id.into(), nom: nom.into(), terminee: false });
    }
    let noms: Vec<&str> = all.iter().map(|s| s.nom.as_str()).collect();
    assert_eq!(noms, vec!["Astérix", "blacksad", "Corto"]);
    all = Library::upsert_series(all, Series { id: "b".into(), nom: "Blacksad".into(), terminee: true });
    assert_eq!(all.len(), 3);
    assert!(all[1].terminee);
    assert_eq!(all[1].nom, "Blacksad");
}

#[test]
fn open_requires_a_collections_directory() {
    let err = Library::open("/tmp/x".to_string(), false).err().unwrap();
    assert_eq!(err, "/tmp/x n'est pas une bibliothèque (dossier collections/ absent)");
    assert_eq!(Library::open("/tmp/x".to_string(), true).unwrap().root, "/tmp/x");
}

#[test]
fn item_ids_come_from_yaml_files() {
    let lib = Library::open("biblio".to_string(), true).unwrap();
    let names = vec!["BD-00002.yaml", "_schema.yaml", "BD-00001.yaml", "notes.txt", "_counters.yaml"]
        .into_iter()
        .map(String::from)
        .collect();
    assert_eq!(lib.list_item_ids(names), vec!["BD-00001", "BD-00002"]);
}

#[test]
fn collection_checks() {
    let lib = Library::open("biblio".to_string(), true).unwrap();
    assert!(lib.create_collection("vinyles-33t", false).is_ok());
    assert_eq!(
        lib.create_collection("Vinyles", false).unwrap_err(),
        "slug invalide (minuscules, chiffres et tirets uniquement)"
    );
    assert_eq!(
        lib.create_collection("", false).unwrap_err(),
        "slug invalide (minuscules, chiffres et tirets uniquement)"
    );
    assert_eq!(lib.create_collection("bd", true).unwrap_err(), "la collection bd existe déjà");
    assert_eq!(lib.delete_collection("bd", true, 12), Ok(12));
    assert_eq!(lib.delete_collection("zz", false, 0).unwrap_err(), "la collection « zz » n'existe pas");
}

#[test]
fn ids_and_cotes_parse_back() {
    assert_eq!(id_sequence("BD-00042"), Some(42));
    assert_eq!(id_sequence("BD"), None);
    assert_eq!(split_cote("2013-SF-0007"), Some(("2013-SF".to_string(), 7)));
    assert_eq!(split_cote("sans"), None);
}

#[test]
fn marking_a_label_remembers_the_cote() {
    let schema = bd_schema();
    let mut counters = Counters::new();
    let mut item = create(&schema, &mut counters, Statut::Possede, &[("titre", "T"), ("genre", "Humour")]);
    assert!(item.etiquette.is_none());
    Library::mark_labeled(&mut item);
    assert_eq!(item.etiquette.as_deref(), Some("0000-HUM-0001"));
    assert!(!Library::is_stale(&schema, &item));
}

#[test]
fn regenerated_cotes_follow_each_other_in_item_order() {
    let mut schema = bd_schema();
    let mut counters = Counters::new();
    let a = create(&schema, &mut counters, Statut::Possede, &[("titre", "A"), ("genre", "Polar"), ("date_parution", "1990")]);
    let b = create(&schema, &mut counters, Statut::Possede, &[("titre", "B"), ("genre", "Humour"), ("date_parution", "1990")]);
    let c = create(&schema, &mut counters, Statut::Possede, &[("titre", "C"), ("genre", "Polar"), ("date_parution", "1990")]);
    assert_eq!(a.cote.as_deref(), Some("1990-POLAR-0001"));
    assert_eq!(c.cote.as_deref(), Some("1990-POLAR-0002"));
    let mut items = vec![a, b, c];

    let genre = schema.fields.iter_mut().find(|f| f.key == "genre").unwrap();
    genre.options.iter_mut().find(|o| o.value == "Polar").unwrap().code = Some("NOIR".into());

    let changes = Library::regenerate_stale_cotes(&schema, &mut counters, &mut items);
    assert_eq!(changes.len(), 2);
    assert_eq!((changes[0].id.as_str(), changes[0].new.as_str()), (items[0].id.as_str(), "1990-NOIR-0001"));
    assert_eq!((changes[1].id.as_str(), changes[1].new.as_str()), (items[2].id.as_str(), "1990-NOIR-0002"));
    assert_eq!(items[1].cote.as_deref(), Some("1990-HUM-0001"));
    assert_eq!(counters.cotes.get("1990-NOIR"), Some(&2));
    assert_eq!(counters.cotes.get("1990-POLAR"), Some(&2));
}

#[test]
fn missing_genre_gives_autre_and_location_stays_out_of_the_cote() {
    let schema = bd_schema();
    let mut counters = Counters::new();
    let mut item = create(&schema, &mut counters, Statut::Possede, &[("titre", "Sans genre"), ("date_parution", "2001-05-01")]);
    assert_eq!(item.cote.as_deref(), Some("2001-AUTRE-0001"));
    let kept = item.fields.clone();
    let needs = Library::edit_item(&schema, &mut item, Statut::Possede, Some("Salon/Étagère B".into()), kept);
    assert!(!needs);
    assert_eq!(item.emplacement.as_deref(), Some("Salon/Étagère B"));
    assert_eq!(item.cote.as_deref(), Some("2001-AUTRE-0001"));
}

#[test]
fn update_refuses_missing_required_field_and_keeps_item() {
    let schema = bd_schema();
    let mut counters = Counters::new();
    let mut item = create(&schema, &mut counters, Statut::Souhaite, &[("titre", "Akira T1")]);
    let before = item.clone();
    let err = Library::update_item(&schema, &mut counters, &mut item, Statut::Possede, None, fields(&[])).unwrap_err();
    assert_eq!(err, "le champ « Titre » est obligatoire");
    assert_eq!(item.cote, before.cote);
    assert_eq!(item.statut, Statut::Souhaite);
}

#[test]
fn series_of_the_same_name_keep_their_order() {
    let mut all = Library::upsert_series(Vec::new(), Series { id: "x".into(), nom: "Même".into(), terminee: false });
    all = Library::upsert_series(all, Series { id: "a".into(), nom: "Autre".into(), terminee: false });
    all = Library::upsert_series(all, Series { id: "y".into(), nom: "même".into(), terminee: false });
    let ids: Vec<&str> = all.iter().map(|s| s.id.as_str()).collect();
    assert_eq!(ids, vec!["a", "x", "y"]);
}

#[test]
fn removed_collections_leave_the_library() {
    let lib = Library::open("/data/biblio".to_string(), true).unwrap();
    assert_eq!(lib.removed_collection_dir("bd", 0), "/data/biblio-corbeille/bd");
    assert_eq!(lib.removed_collection_dir("bd", 2), "/data/biblio-corbeille/bd-2");
}

#[test]
fn created_item_is_dated_today() {
    let schema = bd_schema();
    let mut counters = Counters::new();
    let item = Library::create_item(&schema, &mut counters, Statut::Souhaite, fields(&[("titre", "Daté")])).unwrap();
    let d: Vec<char> = item.date_ajout.chars().collect();
    assert_eq!(d.len(), 10);
    assert_eq!((d[4], d[7]), ('-', '-'));
}
