use ubercollec::model::{FieldDef, FieldType, Schema, Series};
use ubercollec::stats::{add_collection, series_report, CollectionFigures, DashboardStats};

fn row(id: &str, tome: i64, statut: &str) -> (String, Option<i64>, String) {
    (id.to_string(), Some(tome), statut.to_string())
}

fn bd_schema() -> Schema {
    let f = |key: &str, t: FieldType| FieldDef {
        key: key.to_string(),
        label: key.to_string(),
        field_type: t,
        required: false,
        options: Vec::new(),
        max: None,
    };
    Schema {
        name: "BD".to_string(),
        id_prefix: "BD".to_string(),
        source: None,
        cote: None,
        fields: vec![f("titre", FieldType::Text), f("serie", FieldType::SeriesRef)],
    }
}

#[test]
fn detects_missing_tomes() {
    let registry = vec![Series { id: "uw1".into(), nom: "Universal War One".into(), terminee: true }];
    let mut rows: Vec<_> = [1, 2, 3, 5, 7].iter().map(|t| row("uw1", *t, "possede")).collect();
    rows.push(row("uw1", 4, "souhaite"));
    let report = series_report(&registry, &rows);
    assert_eq!(report.len(), 1);
    let uw1 = &report[0];
    assert_eq!(uw1.possedes, vec![1, 2, 3, 5, 7]);
    assert_eq!(uw1.manquants, vec![4, 6]);
    assert_eq!(uw1.souhaites, vec![4]);
    assert!(uw1.terminee);
}

#[test]
fn dashboard_aggregates() {
    let registry = vec![Series { id: "s".into(), nom: "S".into(), terminee: false }];
    let rows = vec![row("s", 1, "possede"), row("s", 3, "possede")];
    let figures = CollectionFigures {
        possede: 2,
        souhaite: 1,
        genres: vec![("Science-Fiction".to_string(), 2)],
        annees: vec![(2015, 2)],
        series: series_report(&registry, &rows),
    };
    let mut d = DashboardStats::new();
    add_collection(&mut d, "bd", &bd_schema(), figures);
    assert_eq!(d.total_possede, 2);
    assert_eq!(d.total_souhaite, 1);
    let bd = d.collections.iter().find(|c| c.slug == "bd").unwrap();
    assert_eq!(bd.possede, 2);
    assert_eq!(d.series_incompletes_total, 1);
    assert_eq!(d.series_incompletes[0].manquants, vec![2]);
    assert!(d.genres.iter().any(|g| g.genre == "Science-Fiction" && g.count == 2));
    assert!(d.annees.iter().any(|y| y.annee == 2015 && y.count == 2));
}

#[test]
fn rows_without_volume_or_series_are_ignored() {
    let registry = vec![
        Series { id: "a".into(), nom: "A".into(), terminee: false },
        Series { id: "b".into(), nom: "B".into(), terminee: false },
    ];
    let rows = vec![
        ("a".to_string(), None, "possede".to_string()),
        row("a", 2, "possede"),
        row("zz", 1, "possede"),
    ];
    let report = series_report(&registry, &rows);
    assert_eq!(report.len(), 2);
    assert_eq!(report[0].possedes, vec![2]);
    assert_eq!(report[0].manquants, vec![1]);
    assert!(report[1].possedes.is_empty() && report[1].manquants.is_empty());
}

#[test]
fn dashboard_shows_fifteen_series_most_gaps_first() {
    let registry: Vec<Series> = (0..20)
        .map(|i| Series { id: format!("s{i}"), nom: format!("S{i}"), terminee: false })
        .collect();
    // Series i owns only volume i + 2: i + 1 volumes missing.
    let rows: Vec<_> = (0..20).map(|i| row(&format!("s{i}"), i + 2, "possede")).collect();
    let figures = CollectionFigures {
        possede: 20,
        souhaite: 0,
        genres: Vec::new(),
        annees: Vec::new(),
        series: series_report(&registry, &rows),
    };
    let mut d = DashboardStats::new();
    add_collection(&mut d, "bd", &bd_schema(), figures);
    assert_eq!(d.series_incompletes_total, 20);
    assert_eq!(d.series_incompletes.len(), 15);
    assert_eq!(d.series_incompletes[0].nom, "S19");
    assert_eq!(d.series_incompletes[0].manquants.len(), 20);
    assert_eq!(d.series_incompletes[14].nom, "S5");
}

#[test]
fn collections_without_series_field_add_no_series() {
    let mut schema = bd_schema();
    schema.fields.pop();
    let registry = vec![Series { id: "s".into(), nom: "S".into(), terminee: false }];
    let figures = CollectionFigures {
        possede: 1,
        souhaite: 0,
        genres: Vec::new(),
        annees: Vec::new(),
        series: series_report(&registry, &vec![row("s", 3, "possede")]),
    };
    let mut d = DashboardStats::new();
    add_collection(&mut d, "cd", &schema, figures);
    assert_eq!(d.series_incompletes_total, 0);
    assert!(d.series_incompletes.is_empty());
    assert_eq!(d.collections[0].name, "BD");
}
