use ubercollec::import::{
    check_mappings, column_index, is_truthy, line_prefix, nom_prenom, normalize, preview_csv,
    run_import, slugify, ColumnMapping, ImportOptions, ImportResult, TARGET_SERIE, TARGET_TOME,
};
use ubercollec::model::{Counters, CoteConfig, FieldDef, FieldType, Item, Schema, SelectOption, Series};
use ubercollec::value::Value;

const CSV: &str = "\
\"Serie\",\"Titre\",\"Tome\",\"ISBN\",\"Genre\",\"Scenariste\",\"Dessinateur\",\"Editeur\",\"Collection\",\"Date parution\",\"EAN\"
\"Lastman\",\"Lastman, Tome 1\",\"1\",\"\",\"Science-Fiction\",\"Balak\",\"Vivès, Bastien\",\"Casterman\",\"KSTR\",\"2013-03-20\",\"9782203064669\"
\"Lastman\",\"Lastman, Tome 2\",\"2\",\"\",\"Science-Fiction\",\"Balak\",\"Vivès, Bastien\",\"Casterman\",\"KSTR\",\"2013-06-12\",\"9782203069473\"
\"Le Rapport de Brodeck\",\"Le Rapport de Brodeck\",\"\",\"\",\"Western\",\"Larcenet, Manu\",\"Larcenet, Manu\",\"Dargaud\",\"<N/A>\",\"2015-04-03\",\"9782205073010\"
\"100 maisons\",\"100 maisons\",\"\",\"\",\"Erotique\",\"Le Lay, Delphine\",\"Horellou, Alexis\",\"Delcourt\",\"Encrages\",\"2015-02-04\",\"\"
";

fn field(key: &str, label: &str, field_type: FieldType, required: bool) -> FieldDef {
    FieldDef {
        key: key.to_string(),
        label: label.to_string(),
        field_type,
        required,
        options: Vec::new(),
        max: None,
    }
}

fn bd_schema() -> Schema {
    let genres = [
        ("Science-Fiction", "SF"),
        ("Fantasy", "FANT"),
        ("Historique", "HIST"),
        ("Humour", "HUM"),
        ("Aventures Humoristiques", "AVHUM"),
        ("Aventure", "AVENT"),
        ("Polar", "POLAR"),
        ("Romans Graphiques", "GRAPH"),
        ("Comics", "COMIC"),
        ("Comics Super-héros", "SUPER"),
        ("Mangas - Seinen", "SEINEN"),
        ("Mangas - Shônen", "SHONEN"),
        ("Mangas - Shôjo", "SHOJO"),
        ("Jeunesse", "JEUN"),
        ("Érotique", "ERO"),
        ("Périodique", "PERIO"),
    ];
    let mut genre = field("genre", "Genre", FieldType::Select, false);
    genre.options = genres
        .iter()
        .map(|(v, c)| SelectOption { value: v.to_string(), code: Some(c.to_string()) })
        .collect();
    Schema {
        name: "BD".to_string(),
        id_prefix: "BD".to_string(),
        source: Some("bd".to_string()),
        cote: Some(CoteConfig {
            year_field: "date_parution".to_string(),
            genre_field: "genre".to_string(),
        }),
        fields: vec![
            field("titre", "Titre", FieldType::Text, true),
            field("serie", "Série", FieldType::SeriesRef, false),
            field("scenariste", "Scénariste(s)", FieldType::TextList, false),
            field("dessinateur", "Dessinateur(s)", FieldType::TextList, false),
            field("editeur", "Éditeur", FieldType::Text, false),
            field("collection_editeur", "Collection éditeur", FieldType::Text, false),
            genre,
            field("date_parution", "Date de parution", FieldType::Date, false),
            field("synopsis", "Synopsis", FieldType::Longtext, false),
            field("ean", "EAN / ISBN", FieldType::Text, false),
            field("couverture", "Couverture", FieldType::Image, false),
        ],
    }
}

fn m(column: &str, target: &str, transform: Option<&str>) -> ColumnMapping {
    ColumnMapping {
        column: column.into(),
        target: target.into(),
        transform: transform.map(String::from),
    }
}

fn mappings() -> Vec<ColumnMapping> {
    vec![
        m("Serie", TARGET_SERIE, None),
        m("Titre", "titre", None),
        m("Tome", TARGET_TOME, None),
        m("EAN", "ean", None),
        m("ISBN", "ean", None),
        m("Genre", "genre", None),
        m("Scenariste", "scenariste", Some("nom_prenom")),
        m("Dessinateur", "dessinateur", Some("nom_prenom")),
        m("Editeur", "editeur", None),
        m("Collection", "collection_editeur", None),
        m("Date parution", "date_parution", None),
    ]
}

fn options() -> ImportOptions {
    ImportOptions { skip_duplicates: true, oneshot_if_serie_equals_titre: true }
}

fn number(s: &str) -> Option<Value> {
    s.parse::<f64>().ok().map(|n| Value::Number(n.to_string()))
}

/// A collection as the files hold it between two imports.
struct Collection {
    schema: Schema,
    series: Vec<Series>,
    counters: Counters,
    items: Vec<Item>,
}

impl Collection {
    fn new() -> Self {
        Collection { schema: bd_schema(), series: Vec::new(), counters: Counters::new(), items: Vec::new() }
    }

    fn import(&mut self, csv: &str, maps: &[ColumnMapping]) -> Result<ImportResult, String> {
        let r = run_import(
            &mut self.schema,
            self.series.clone(),
            &mut self.counters,
            &self.items,
            csv.as_bytes(),
            maps,
            &options(),
            "2026-07-03",
            &number,
        )
        .expect("counters have room");
        if let Ok(res) = &r {
            self.series = res.series.clone();
            self.items.extend(res.items.iter().cloned());
        }
        r
    }
}

fn text(item: &Item, key: &str) -> Option<String> {
    match item.fields.get(key) {
        Some(Value::Str(s)) => Some(s.clone()),
        _ => None,
    }
}

fn find<'a>(items: &'a [Item], titre: &str) -> &'a Item {
    items.iter().find(|i| text(i, "titre").as_deref() == Some(titre)).unwrap()
}

#[test]
fn import_creates_items_series_and_genres() {
    let mut c = Collection::new();
    let res = c.import(CSV, &mappings()).unwrap();
    let report = &res.report;

    assert_eq!(report.total_rows, 4);
    assert_eq!(report.imported, 4);
    assert!(report.errors.is_empty(), "{:?}", report.errors);

    // A single series: Lastman. The two one-shots create none.
    assert_eq!(report.series_created, 1);
    assert_eq!(c.series.len(), 1);
    assert_eq!(c.series[0].nom, "Lastman");

    // The unknown genre is added; « Erotique » matches « Érotique ».
    assert_eq!(report.genres_added, vec!["Western".to_string()]);
    assert!(res.schema_changed);
    let genre = c.schema.field("genre").unwrap();
    assert!(genre.options.iter().any(|o| o.value == "Western"));
    assert_eq!(
        genre.options.iter().filter(|o| normalize(&o.value).starts_with("erotique")).count(),
        1
    );

    let t1 = find(&c.items, "Lastman, Tome 1");
    match t1.fields.get("dessinateur") {
        Some(Value::Array(a)) => {
            assert_eq!(a.len(), 1);
            assert!(matches!(&a[0], Value::Str(s) if s == "Bastien Vivès"));
        }
        other => panic!("{other:?}"),
    }
    assert_eq!(t1.cote.as_deref(), Some("2013-SF-0001"));
    match t1.fields.get("serie") {
        Some(v) => match v.get("tome") {
            Some(Value::Number(n)) => assert_eq!(n, "1"),
            other => panic!("{other:?}"),
        },
        None => panic!("no series"),
    }
    let maisons = find(&c.items, "100 maisons");
    assert_eq!(text(maisons, "genre").as_deref(), Some("Érotique"));
    assert!(maisons.fields.get("serie").is_none());
    let brodeck = find(&c.items, "Le Rapport de Brodeck");
    assert!(brodeck.fields.get("collection_editeur").is_none());
}

#[test]
fn reimport_skips_all_duplicates() {
    let mut c = Collection::new();
    c.import(CSV, &mappings()).unwrap();
    let second = c.import(CSV, &mappings()).unwrap();
    assert_eq!(second.report.imported, 0);
    assert_eq!(second.report.skipped_duplicates, 4);
    assert_eq!(second.report.series_created, 0);
    assert_eq!(c.items.len(), 4);
}

#[test]
fn missing_column_is_an_error() {
    let mut c = Collection::new();
    let bad = vec![m("Inexistante", "titre", None)];
    let err = c.import(CSV, &bad).err().unwrap();
    assert!(err.contains("Inexistante"), "{err}");
    assert_eq!(err, "colonne « Inexistante » absente du CSV");
}

#[test]
fn genre_code_collisions_get_unique_codes() {
    let mut c = Collection::new();
    let csv = "\
\"Titre\",\"Genre\"
\"Album A\",\"Aventures Historiques\"
\"Album B\",\"Aventures Fantastiques\"
";
    let maps = vec![m("Titre", "titre", None), m("Genre", "genre", None)];
    c.import(csv, &maps).unwrap();
    let genre = c.schema.field("genre").unwrap();
    let codes: Vec<String> = genre.options.iter().map(|o| o.effective_code()).collect();
    let mut deduped = codes.clone();
    deduped.sort();
    deduped.dedup();
    assert_eq!(codes.len(), deduped.len(), "codes non uniques : {codes:?}");
}

#[test]
fn helpers() {
    assert_eq!(nom_prenom("Le Lay, Delphine"), "Delphine Le Lay");
    assert_eq!(nom_prenom("Balak"), "Balak");
    assert_eq!(slugify("Dragon Ball Super"), "dragon-ball-super");
    assert_eq!(slugify("L'Épée d'Ardenois !"), "l-epee-d-ardenois");
}

#[test]
fn preview_reads_headers_and_first_rows() {
    let p = preview_csv(CSV.as_bytes()).unwrap();
    assert_eq!(p.headers[0], "Serie");
    assert_eq!(p.headers.len(), 11);
    assert_eq!(p.total_rows, 4);
    assert_eq!(p.rows[0][1], "Lastman, Tome 1");
}

#[test]
fn mapping_checks_and_small_readers() {
    let headers: Vec<String> = vec!["A".into(), "B".into(), "A".into()];
    assert_eq!(column_index(&headers, "A"), Some(2));
    assert_eq!(column_index(&headers, "C"), None);
    assert!(check_mappings(&headers, &[m("C", "__ignore", None)]).is_ok());
    assert!(check_mappings(&headers, &[m("C", "titre", None)]).is_err());
    assert!(is_truthy("Oui"));
    assert!(is_truthy("x"));
    assert!(!is_truthy("non"));
    assert_eq!(line_prefix(2), "ligne 2 : ");
}

#[test]
fn unreadable_volume_is_reported() {
    let mut c = Collection::new();
    let csv = "\"Serie\",\"Titre\",\"Tome\"\n\"Akira\",\"Akira 1\",\"un\"\n";
    let maps = vec![m("Serie", TARGET_SERIE, None), m("Titre", "titre", None), m("Tome", TARGET_TOME, None)];
    let res = c.import(csv, &maps).unwrap();
    assert_eq!(res.report.imported, 1);
    assert_eq!(res.report.errors.len(), 1);
    assert!(res.report.errors[0].contains("tome « un » non numérique"), "{:?}", res.report.errors);
}

#[test]
fn same_title_from_other_publishers_is_not_a_duplicate() {
    let mut c = Collection::new();
    let csv = "Titre,Editeur\nAlbum,Dargaud\nAlbum,Casterman\nalbum ,dargaud\n";
    let maps = vec![m("Titre", "titre", None), m("Editeur", "editeur", None)];
    let r = c.import(csv, &maps).unwrap();
    assert_eq!(r.report.imported, 2);
    assert_eq!(r.report.skipped_duplicates, 1);
}

#[test]
fn slug_of_a_normalized_label() {
    assert_eq!(ubercollec::import::slug_of_normalized("l'epee d'ardenois !"), "l-epee-d-ardenois");
    assert_eq!(ubercollec::import::slug_of_normalized("--a  b--"), "a-b");
}

#[test]
fn same_title_and_publisher_by_other_authors_is_not_a_duplicate() {
    let mut c = Collection::new();
    let csv = "Titre,Scenariste,Editeur\nAlbum,Balak,Dargaud\nAlbum,Vivès,Dargaud\nAlbum,balak,DARGAUD\n";
    let maps = vec![m("Titre", "titre", None), m("Scenariste", "scenariste", None), m("Editeur", "editeur", None)];
    let r = c.import(csv, &maps).unwrap();
    assert_eq!(r.report.imported, 2);
    assert_eq!(r.report.skipped_duplicates, 1);
}
