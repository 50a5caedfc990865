use ubercollec::hydrate::{
    candidate_to_fields, clean_bnf_name, ensure_genre, looks_like_barcode, mask_key, retry_wait, same_thing, xml_tags,
    Candidate,
};
use ubercollec::model::{CoteConfig, FieldDef, FieldType, Schema, SelectOption};
use ubercollec::value::{StrMap, Value};

fn field(key: &str, label: &str, field_type: FieldType, required: bool) -> FieldDef {
    FieldDef {
        key: key.to_string(),
        label: label.to_string(),
        field_type,
        required,
        options: Vec::new(),
        max: None,
    }
}

fn select(key: &str, label: &str, options: &[(&str, &str)]) -> FieldDef {
    FieldDef {
        key: key.to_string(),
        label: label.to_string(),
        field_type: FieldType::Select,
        required: false,
        options: options
            .iter()
            .map(|(v, c)| SelectOption { value: v.to_string(), code: Some(c.to_string()) })
            .collect(),
        max: None,
    }
}

fn cd_schema() -> Schema {
    Schema {
        name: "CD audio".to_string(),
        id_prefix: "CD".to_string(),
        source: Some("cd".to_string()),
        cote: Some(CoteConfig {
            year_field: "date_sortie".to_string(),
            genre_field: "genre".to_string(),
        }),
        fields: vec![
            field("titre", "Titre de l'album", FieldType::Text, true),
            field("artiste", "Artiste(s)", FieldType::TextList, false),
            select(
                "genre",
                "Genre",
                &[
                    ("Rock", "ROCK"),
                    ("Pop", "POP"),
                    ("Jazz", "JAZZ"),
                    ("Classique", "CLASS"),
                    ("Rap / Hip-hop", "RAP"),
                    ("Metal", "METAL"),
                    ("Électro", "ELEC"),
                    ("Chanson française", "CHANS"),
                    ("Blues", "BLUES"),
                    ("Folk", "FOLK"),
                    ("Bande originale", "BO"),
                ],
            ),
            field("label", "Label", FieldType::Text, false),
            field("date_sortie", "Date de sortie", FieldType::Date, false),
            field("pistes", "Nombre de pistes", FieldType::Number, false),
            field("ean", "Code-barres (EAN)", FieldType::Text, false),
            field("couverture", "Pochette", FieldType::Image, false),
        ],
    }
}

fn bd_schema() -> Schema {
    Schema {
        name: "BD".to_string(),
        id_prefix: "BD".to_string(),
        source: Some("bd".to_string()),
        cote: Some(CoteConfig {
            year_field: "date_parution".to_string(),
            genre_field: "genre".to_string(),
        }),
        fields: vec![
            field("titre", "Titre", FieldType::Text, true),
            field("serie", "Série", FieldType::SeriesRef, false),
            field("scenariste", "Scénariste(s)", FieldType::TextList, false),
            field("dessinateur", "Dessinateur(s)", FieldType::TextList, false),
            field("editeur", "Éditeur", FieldType::Text, false),
            field("collection_editeur", "Collection éditeur", FieldType::Text, false),
            select(
                "genre",
                "Genre",
                &[("Science-Fiction", "SF"), ("Fantasy", "FANT"), ("Humour", "HUM")],
            ),
            field("date_parution", "Date de parution", FieldType::Date, false),
            field("synopsis", "Synopsis", FieldType::Longtext, false),
            field("ean", "EAN / ISBN", FieldType::Text, false),
            field("couverture", "Couverture", FieldType::Image, false),
        ],
    }
}

fn empty_candidate(source: &str) -> Candidate {
    Candidate {
        source: source.to_string(),
        titre: None,
        auteurs: Vec::new(),
        illustrateurs: Vec::new(),
        editeur: None,
        date_parution: None,
        ean: None,
        synopsis: None,
        cover_url: None,
        score: None,
        genre: None,
        acteurs: Vec::new(),
    }
}

fn text_of(fields: &StrMap<Value>, key: &str) -> Option<String> {
    match fields.get(key) {
        Some(Value::Str(s)) => Some(s.clone()),
        _ => None,
    }
}

fn texts_of(fields: &StrMap<Value>, key: &str) -> Option<Vec<String>> {
    match fields.get(key) {
        Some(Value::Array(items)) => Some(
            items
                .iter()
                .map(|v| match v {
                    Value::Str(s) => s.clone(),
                    _ => panic!("not a string"),
                })
                .collect(),
        ),
        _ => None,
    }
}

#[test]
fn barcode_detection() {
    assert!(looks_like_barcode("9782344044438"));
    assert!(looks_like_barcode("2-203-06466-9"));
    assert!(!looks_like_barcode("lastman"));
    assert!(!looks_like_barcode("12345"));
}

#[test]
fn bnf_record_parsing() {
    let xml = r#"<srw:recordData><oai_dc:dc>
          <dc:identifier>http://catalogue.bnf.fr/ark:/12148/cb46657982q</dc:identifier>
          <dc:title>L'identité de Merus / scénario, Akira Toriyama ; dessin, Toyotaro</dc:title>
          <dc:creator>Toriyama, Akira (1955-2024). Auteur du texte</dc:creator>
          <dc:contributor>Toyotarō. Illustrateur</dc:contributor>
          <dc:publisher>Glénat (Grenoble)</dc:publisher>
          <dc:date>2020</dc:date>
          <dc:identifier>ISBN 9782344044438</dc:identifier>
        </oai_dc:dc></srw:recordData>"#;
    let record = xml.split("<srw:recordData>").nth(1).unwrap();
    assert_eq!(
        xml_tags(record, "dc:title"),
        vec!["L'identité de Merus / scénario, Akira Toriyama ; dessin, Toyotaro"]
    );
    assert_eq!(clean_bnf_name("Toriyama, Akira (1955-2024). Auteur du texte"), "Akira Toriyama");
    assert_eq!(clean_bnf_name("Toyotarō. Illustrateur"), "Toyotarō");
    assert_eq!(
        clean_bnf_name("Tolkien, John Ronald Reuel (1892-1973). Auteur du texte"),
        "John Ronald Reuel Tolkien"
    );
}

#[test]
fn ensure_genre_matches_or_appends_with_unique_code() {
    let mut schema = cd_schema();
    // A variant in accents or spelling maps to the canonical option; nothing added.
    let (key, value, added) = ensure_genre(&mut schema, "Electro").unwrap();
    assert_eq!((key.as_str(), value.as_str(), added), ("genre", "Électro", false));

    // An unknown genre is added with a derived code.
    let (_, value, added) = ensure_genre(&mut schema, "Italo-Disco").unwrap();
    assert!(added);
    assert_eq!(value, "Italo-Disco");
    let genre = schema.field("genre").unwrap();
    assert!(genre.options.iter().any(|o| o.value == "Italo-Disco"));
    let before = genre.options.len();

    // Asking again for the same one matches it: no duplicate.
    let (_, _, added) = ensure_genre(&mut schema, "italo disco").unwrap();
    assert!(!added);
    assert_eq!(before, schema.field("genre").unwrap().options.len());
}

#[test]
fn candidate_maps_to_custom_schema_with_loose_keys() {
    let schema = Schema {
        name: "LDVELH".to_string(),
        id_prefix: "LDV".to_string(),
        source: None,
        cote: None,
        fields: vec![
            field("titre", "Titre", FieldType::Text, true),
            field("auteur_s", "Auteur(s)", FieldType::Text, false),
            field("date", "Date", FieldType::Date, false),
            field("isbn", "ISBN", FieldType::Text, false),
        ],
    };
    let mut c = empty_candidate("BNF");
    c.titre = Some("Le sorcier de la montagne de feu".to_string());
    c.auteurs = vec!["Steve Jackson".to_string(), "Ian Livingstone".to_string()];
    c.illustrateurs = vec!["Vlado Krizan".to_string()];
    c.editeur = Some("Gallimard jeunesse".to_string());
    c.date_parution = Some("2018".to_string());
    c.ean = Some("9782075100649".to_string());
    let fields = candidate_to_fields(&schema, &c);
    assert_eq!(
        text_of(&fields, "auteur_s").as_deref(),
        Some("Steve Jackson ; Ian Livingstone")
    );
    assert_eq!(text_of(&fields, "date").as_deref(), Some("2018"));
    assert_eq!(text_of(&fields, "isbn").as_deref(), Some("9782075100649"));
    assert!(!fields.contains_key("dessinateur"));
}

#[test]
fn candidate_maps_to_bd_schema() {
    let schema = bd_schema();
    let mut c = empty_candidate("Google Books");
    c.titre = Some("Lastman T1".to_string());
    c.auteurs = vec!["Balak".to_string(), "Bastien Vivès".to_string()];
    c.editeur = Some("Casterman".to_string());
    c.date_parution = Some("2013-03-20".to_string());
    c.ean = Some("9782203064669".to_string());
    c.synopsis = Some("Adieu l'école...".to_string());
    let fields = candidate_to_fields(&schema, &c);
    assert_eq!(text_of(&fields, "titre").as_deref(), Some("Lastman T1"));
    assert_eq!(
        texts_of(&fields, "scenariste"),
        Some(vec!["Balak".to_string(), "Bastien Vivès".to_string()])
    );
    assert_eq!(text_of(&fields, "ean").as_deref(), Some("9782203064669"));
    assert_eq!(text_of(&fields, "synopsis").as_deref(), Some("Adieu l'école..."));
    assert!(!fields.contains_key("auteur"));
}

#[test]
fn same_thing_matching() {
    assert!(same_thing("AC/DC", "ACDC"));
    assert!(same_thing("Adéle", "Adele"));
    assert!(same_thing("Ballbreaker", "Ballbreaker (Remastered)"));
    assert!(same_thing("Greatest Hits", "greatest hits"));
    assert!(!same_thing("Greatest Hits", "Greatest Hits Vol. 2") == false);
    assert!(!same_thing("Abba", "Blondie"));
    assert!(!same_thing("21", "12"));
}

#[test]
fn ensure_genre_without_genre_field_does_nothing() {
    let mut schema = Schema {
        name: "Vinyles".to_string(),
        id_prefix: "VIN".to_string(),
        source: None,
        cote: None,
        fields: vec![field("titre", "Titre", FieldType::Text, true)],
    };
    assert!(ensure_genre(&mut schema, "Rock").is_none());
    assert_eq!(schema.fields.len(), 1);
}

#[test]
fn same_thing_rejects_empty_sides() {
    assert!(!same_thing("", "Abba"));
    assert!(!same_thing("!!!", "Abba"));
}

#[test]
fn retries_follow_two_then_four_seconds() {
    assert_eq!(retry_wait(1, Some(503)), Some(2000));
    assert_eq!(retry_wait(2, None), Some(4000));
    assert_eq!(retry_wait(3, Some(429)), None);
    assert_eq!(retry_wait(1, Some(404)), None);
}

#[test]
fn api_keys_are_masked_in_messages() {
    assert_eq!(
        mask_key("error sending request for url (https://api.themoviedb.org/3/search/movie?api_key=abc123&query=x)", "abc123"),
        "error sending request for url (https://api.themoviedb.org/3/search/movie?api_key=•••&query=x)"
    );
    assert_eq!(mask_key("rien", ""), "rien");
}

#[test]
fn catalogue_errors_hide_the_key() {
    assert_eq!(
        ubercollec::hydrate::tmdb_error(false, "url ?api_key=k3y&query=x", "k3y"),
        "TMDB : url ?api_key=•••&query=x"
    );
    assert_eq!(ubercollec::hydrate::discogs_error(false, "token t0k refusé", "t0k"), "Discogs : token ••• refusé");
}
