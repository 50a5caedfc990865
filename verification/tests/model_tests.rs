use ubercollec::model::{
    add_option_with_unique_code, derive_code, reserved_key, unique_code, CoteConfig, FieldDef,
    FieldType, Schema, SelectOption,
};

fn field(key: &str, label: &str, field_type: FieldType, required: bool) -> FieldDef {
    FieldDef {
        key: key.to_string(),
        label: label.to_string(),
        field_type,
        required,
        options: Vec::new(),
        max: None,
    }
}

fn vinyles() -> Schema {
    Schema {
        name: "Vinyles".to_string(),
        id_prefix: "VIN".to_string(),
        source: None,
        cote: None,
        fields: vec![field("titre", "Titre", FieldType::Text, true)],
    }
}

#[test]
fn derive_code_strips_accents_and_truncates() {
    assert_eq!(derive_code("Science-Fiction"), "SCIENC");
    assert_eq!(derive_code("Érotique"), "EROTIQ");
    assert_eq!(derive_code("SF"), "SF");
    assert_eq!(derive_code("---"), "AUTRE");
}

#[test]
fn schema_validation_guards() {
    let mut schema = vinyles();
    assert!(schema.validate().is_ok());

    schema.fields.push(FieldDef {
        key: "statut".into(),
        label: "Statut".into(),
        field_type: FieldType::Text,
        required: false,
        options: vec![],
        max: None,
    });
    assert!(schema.validate().unwrap_err().contains("réservée"));
    schema.fields.pop();

    schema.cote = Some(CoteConfig {
        year_field: "titre".into(),
        genre_field: "titre".into(),
    });
    assert!(schema.validate().unwrap_err().contains("date"));
}

#[test]
fn validation_reports_each_guard() {
    let mut s = vinyles();
    s.name = "  ".to_string();
    assert_eq!(s.validate().unwrap_err(), "le nom de la collection est obligatoire");

    let mut s = vinyles();
    s.id_prefix = "V-1".to_string();
    assert_eq!(s.validate().unwrap_err(), "le préfixe d'ID doit être alphanumérique (ex : VIN)");

    let mut s = vinyles();
    s.fields.clear();
    assert_eq!(s.validate().unwrap_err(), "au moins un champ est nécessaire");

    let mut s = vinyles();
    s.fields.push(field("Titre2", "T", FieldType::Text, false));
    assert_eq!(
        s.validate().unwrap_err(),
        "clé de champ invalide « Titre2 » (minuscules, chiffres, _)"
    );

    let mut s = vinyles();
    s.fields.push(field("titre", "Encore", FieldType::Text, false));
    assert_eq!(s.validate().unwrap_err(), "clé de champ en double : « titre »");

    let mut s = vinyles();
    s.fields = vec![field("note", "Note", FieldType::Number, true)];
    assert_eq!(s.validate().unwrap_err(), "il faut au moins un champ de type texte (le titre)");

    let mut s = vinyles();
    s.fields.push(field("serie", "Série", FieldType::SeriesRef, false));
    s.fields.push(field("saga", "Saga", FieldType::SeriesRef, false));
    assert_eq!(s.validate().unwrap_err(), "une collection ne peut avoir qu'un champ série");

    let mut s = vinyles();
    s.fields.push(field("date", "Date", FieldType::Date, false));
    s.cote = Some(CoteConfig { year_field: "date".into(), genre_field: "titre".into() });
    assert_eq!(
        s.validate().unwrap_err(),
        "le champ genre de la cote doit être une liste à choix"
    );
}

#[test]
fn title_field_prefers_required_text() {
    let mut s = vinyles();
    s.fields.insert(0, field("sous_titre", "Sous-titre", FieldType::Text, false));
    assert_eq!(s.title_field().unwrap().key, "titre");
    s.fields[1].required = false;
    assert_eq!(s.title_field().unwrap().key, "sous_titre");
    assert!(s.field("absent").is_none());
    assert_eq!(s.field("titre").unwrap().label, "Titre");
}

#[test]
fn reserved_keys_are_the_system_fields() {
    for k in ["id", "cote", "statut", "emplacement", "etiquette", "date_ajout"] {
        assert!(reserved_key(k));
    }
    assert!(!reserved_key("titre"));
}

#[test]
fn effective_code_falls_back_to_derived() {
    let o = SelectOption { value: "Mangas - Seinen".to_string(), code: None };
    assert_eq!(o.effective_code(), "MANGAS");
    let o = SelectOption { value: "Fantasy".to_string(), code: Some("FANT".to_string()) };
    assert_eq!(o.effective_code(), "FANT");
}

#[test]
fn added_codes_stay_distinct() {
    let mut def = FieldDef {
        key: "genre".to_string(),
        label: "Genre".to_string(),
        field_type: FieldType::Select,
        required: false,
        options: vec![],
        max: None,
    };
    let a = add_option_with_unique_code(&mut def, "Aventures Historiques");
    let b = add_option_with_unique_code(&mut def, "Aventures Fantastiques");
    assert_eq!(a, "AVENTU");
    assert_ne!(a, b);
    assert_eq!(def.options.len(), 2);
    assert_eq!(unique_code(&def.options, "Aventures X"), unique_code(&def.options, "Aventures Y"));
    assert_ne!(unique_code(&def.options, "Aventures X"), a);
    assert_ne!(unique_code(&def.options, "Aventures X"), b);
}
