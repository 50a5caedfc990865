//! What the search index holds of an item and how it is queried. The index
//! is a disposable SQLite database rebuilt from the YAML files at will; the
//! values of its rows and the text of its queries are decided here, the
//! database itself is driven by the caller.
use vstd::prelude::*;
use crate::text::{
    all_digits, char_is_whitespace, chars_of, digits_value, first, format_i64, is_whitespace, join,
    join_spec, lemma_first_none, lemma_first_some, owned, parse_i64, parse_i64_spec, push_char, str_eq,
    string_of, views,
};
use crate::model::{title_field_spec, CoteConfig, FieldDef, FieldType, Item, Schema, Series, Statut};
use crate::value::{as_i64_spec, get_spec, str_of, StrMap, Value};
use crate::store::{digit_run, digit_run_exec, find_series, same_id};
use crate::import::fval;
use crate::hydrate::{concat3, find_map, opt_view};

verus! {

/// Structured search filters, combined with the full-text query.
#[derive(Debug)]
pub struct SearchFilters {
    pub statut: Option<String>,
    pub genre: Option<String>,
    pub annee: Option<i64>,
    /// Series identifier (slug of the registry).
    pub serie: Option<String>,
}

impl Default for SearchFilters {
    fn default() -> (r: SearchFilters)
        ensures
            r.statut is None && r.genre is None && r.annee is None && r.serie is None,
    {
        SearchFilters { statut: None, genre: None, annee: None, serie: None }
    }
}

/// A row of the index, as the lists show it.
#[derive(Debug)]
pub struct IndexedItem {
    pub collection: String,
    pub id: String,
    pub titre: String,
    pub cote: Option<String>,
    pub statut: String,
    pub emplacement: Option<String>,
    pub date_ajout: String,
    pub serie_nom: Option<String>,
    pub serie_tome: Option<i64>,
    pub annee: Option<i64>,
    pub data: Value,
}

// ---------------------------------------------------------------------------
// What a row holds
// ---------------------------------------------------------------------------

/// The series reference of an item: from the first series field whose value
/// has a text `id`, that id, the name the registry gives it (the id itself
/// when unknown) and the volume.
pub open spec fn resolve_series_spec(fs: Seq<FieldDef>, series: Seq<Series>, fields: StrMap<Value>) -> Option<(Seq<char>, Seq<char>, Option<i64>)> {
    find_map(
        fs,
        |def: FieldDef| if def.field_type == FieldType::SeriesRef && fval(fields, def.key@) is Some
            && crate::value::get_str_spec(fval(fields, def.key@).unwrap(), "id"@) is Some {
            let v = fval(fields, def.key@).unwrap();
            let id = crate::value::get_str_spec(v, "id"@).unwrap();
            let nom = match first(series, same_id(id)) {
                Some(k) => series[k].nom@,
                None => id,
            };
            let tome = match get_spec(v, "tome"@) {
                Some(t) => as_i64_spec(t),
                None => None,
            };
            Some((id, nom, tome))
        } else {
            None
        },
    )
}

pub open spec fn series_view(r: (Option<String>, Option<String>, Option<i64>)) -> Option<(Seq<char>, Seq<char>, Option<i64>)> {
    match (r.0, r.1) {
        (Some(id), Some(nom)) => Some((id@, nom@, r.2)),
        _ => None,
    }
}

/// The series an item belongs to, resolved through the registry:
/// (id, name, volume).
pub fn resolve_series(schema: &Schema, series: &Vec<Series>, item: &Item) -> (r: (Option<String>, Option<String>, Option<i64>))
    requires
        item.fields.wf(),
    ensures
        series_view(r) == resolve_series_spec(schema.fields@, series@, item.fields),
        r.0 is None ==> r.1 is None && r.2 is None,
        r.0 is Some ==> r.1 is Some,
{
    let ghost f = |def: FieldDef| if def.field_type == FieldType::SeriesRef && fval(item.fields, def.key@) is Some
        && crate::value::get_str_spec(fval(item.fields, def.key@).unwrap(), "id"@) is Some {
        let v = fval(item.fields, def.key@).unwrap();
        let id = crate::value::get_str_spec(v, "id"@).unwrap();
        let nom = match first(series@, same_id(id)) {
            Some(k) => series@[k].nom@,
            None => id,
        };
        let tome = match get_spec(v, "tome"@) {
            Some(t) => as_i64_spec(t),
            None => None,
        };
        Some((id, nom, tome))
    } else {
        None
    };
    let fs = &schema.fields;
    let mut i: usize = 0;
    assert(fs@.skip(0) =~= fs@);
    while i < fs.len()
        invariant
            i <= fs@.len(),
            item.fields.wf(),
            fs == &schema.fields,
            f == (|def: FieldDef| if def.field_type == FieldType::SeriesRef && fval(item.fields, def.key@) is Some
                && crate::value::get_str_spec(fval(item.fields, def.key@).unwrap(), "id"@) is Some {
                let v = fval(item.fields, def.key@).unwrap();
                let id = crate::value::get_str_spec(v, "id"@).unwrap();
                let nom = match first(series@, same_id(id)) {
                    Some(k) => series@[k].nom@,
                    None => id,
                };
                let tome = match get_spec(v, "tome"@) {
                    Some(t) => as_i64_spec(t),
                    None => None,
                };
                Some((id, nom, tome))
            } else {
                None
            }),
            find_map(fs@, f) == find_map(fs@.skip(i as int), f),
        decreases fs@.len() - i,
    {
        let ghost rest = fs@.skip(i as int);
        assert(rest.drop_first() =~= fs@.skip(i + 1));
        assert(rest[0] == fs@[i as int]);
        let def = &fs[i];
        if def.field_type == FieldType::SeriesRef {
            match item.fields.get(def.key.as_str()) {
                Some(value) => match crate::value::get_str(value, "id") {
                    Some(id) => {
                        let tome = match value.get("tome") {
                            Some(t) => t.as_i64(),
                            None => None,
                        };
                        let nom = match find_series(series, id.as_str()) {
                            Some(k) => series[k].nom.clone(),
                            None => id.clone(),
                        };
                        return (Some(id), Some(nom), tome);
                    },
                    None => {},
                },
                None => {},
            }
        }
        i = i + 1;
    }
    (None, None, None)
}

/// The year of a date: its four leading digits, when there are exactly four.
pub open spec fn year_of_date(s: Seq<char>) -> Option<i64> {
    if digit_run(s) == 4 {
        Some(digits_value(s.take(4)) as i64)
    } else {
        None
    }
}

/// The genre (non-empty text) and production year of an item, read from
/// the fields that make its shelf mark.
pub open spec fn genre_annee_spec(schema: Schema, fields: StrMap<Value>) -> (Option<Seq<char>>, Option<i64>) {
    match schema.cote {
        None => (None, None),
        Some(c) => (
            match fval(fields, c.genre_field@) {
                Some(v) => match str_of(v) {
                    Some(t) => if t.len() > 0 { Some(t) } else { None },
                    None => None,
                },
                None => None,
            },
            match fval(fields, c.year_field@) {
                Some(v) => match str_of(v) {
                    Some(t) => year_of_date(t),
                    None => None,
                },
                None => None,
            },
        ),
    }
}

pub proof fn lemma_digit_run_prefix(s: Seq<char>, n: nat)
    requires
        n <= digit_run(s),
    ensures
        n <= s.len(),
        all_digits(s.take(n as int)),
    decreases s.len(),
{
    if n > 0 {
        lemma_digit_run_prefix(s.drop_first(), (n - 1) as nat);
        assert forall|k: int| 0 <= k < n implies crate::text::is_digit(#[trigger] s.take(n as int)[k]) by {
            if k > 0 {
                assert(s.take(n as int)[k] == s.drop_first().take(n - 1)[k - 1]);
            }
        }
    }
}

/// Genre and production year of an item.
pub fn resolve_genre_annee(schema: &Schema, item: &Item) -> (r: (Option<String>, Option<i64>))
    requires
        item.fields.wf(),
    ensures
        (opt_view(r.0), r.1) == genre_annee_spec(*schema, item.fields),
{
    let config = match &schema.cote {
        Some(c) => c,
        None => return (None, None),
    };
    let genre = match item.fields.get(config.genre_field.as_str()) {
        Some(v) => match v.as_str() {
            Some(t) => if t.as_str().is_empty() { None } else { Some(t.clone()) },
            None => None,
        },
        None => None,
    };
    let annee = match item.fields.get(config.year_field.as_str()) {
        Some(v) => match v.as_str() {
            Some(t) => {
                let cs = chars_of(t.as_str());
                let n = digit_run_exec(&cs);
                if n == 4 {
                    proof {
                        lemma_digit_run_prefix(cs@, 4);
                    }
                    let four = crate::hydrate::span(&cs, 0, 4);
                    let y = parse_i64(string_of(&four).as_str());
                    proof {
                        assert(four@ =~= cs@.take(4));
                        assert(four@[0] != '+' && four@[0] != '-') by {
                            assert(crate::text::is_digit(four@[0]));
                        }
                        assert(digits_value(four@) < 10000) by {
                            lemma_digits_bound(four@);
                            assert(pow10(4) == 10000) by {
                                reveal_with_fuel(pow10, 5);
                            }
                        }
                    }
                    y
                } else {
                    None
                }
            },
            None => None,
        },
        None => None,
    };
    (genre, annee)
}

pub proof fn lemma_digits_bound(s: Seq<char>)
    requires
        all_digits(s),
    ensures
        digits_value(s) < crate::index::pow10(s.len()),
    decreases s.len(),
{
    if s.len() > 0 {
        assert(all_digits(s.drop_last())) by {
            assert forall|k: int| 0 <= k < s.drop_last().len() implies crate::text::is_digit(#[trigger] s.drop_last()[k]) by {
                assert(s.drop_last()[k] == s[k]);
            }
        }
        lemma_digits_bound(s.drop_last());
        assert(crate::text::is_digit(s[s.len() - 1]));
    }
}

pub open spec fn pow10(n: nat) -> nat
    decreases n,
{
    if n == 0 {
        1
    } else {
        10 * pow10((n - 1) as nat)
    }
}

/// The texts of a field value that the full-text search sees: a string,
/// the strings of a list, a number's text.
pub open spec fn value_texts(v: Value) -> Seq<Seq<char>> {
    match v {
        Value::Str(t) => seq![t@],
        Value::Array(a) => a@.filter_map(|x: Value| str_of(x)),
        Value::Number(n) => seq![n@],
        _ => Seq::empty(),
    }
}

/// The searchable texts of the fields, in schema order (images and series
/// references aside).
pub open spec fn field_texts(fs: Seq<FieldDef>, fields: StrMap<Value>) -> Seq<Seq<char>>
    decreases fs.len(),
{
    if fs.len() == 0 {
        Seq::empty()
    } else {
        let def = fs.last();
        field_texts(fs.drop_last(), fields) + if def.field_type == FieldType::Image || def.field_type
            == FieldType::SeriesRef {
            Seq::empty()
        } else {
            match fval(fields, def.key@) {
                Some(v) => value_texts(v),
                None => Seq::empty(),
            }
        }
    }
}

pub open spec fn opt_seq(o: Option<String>) -> Seq<Seq<char>> {
    match o {
        Some(s) => seq![s@],
        None => Seq::empty(),
    }
}

/// The words an item can be found by: its ID, shelf mark, location,
/// series name and volume (`T12`), then the texts of its fields.
pub open spec fn content_parts(fs: Seq<FieldDef>, series: Seq<Series>, item: Item) -> Seq<Seq<char>> {
    let serie = match resolve_series_spec(fs, series, item.fields) {
        Some((id, nom, tome)) => seq![nom] + match tome {
            Some(t) => seq![seq!['T'] + crate::text::decimal_int(t as int)],
            None => Seq::empty(),
        },
        None => Seq::empty(),
    };
    seq![item.id@] + opt_seq(item.cote) + opt_seq(item.emplacement) + serie + field_texts(fs, item.fields)
}

/// A list keeps every element that `f` maps to something.
proof fn lemma_filter_map_has<A, B>(s: Seq<A>, f: spec_fn(A) -> Option<B>, i: int, b: B)
    requires
        0 <= i < s.len(),
        f(s[i]) == Some(b),
    ensures
        s.filter_map(f).contains(b),
    decreases s.len(),
{
    let rest = s.drop_last();
    if i == s.len() - 1 {
        assert(s.filter_map(f) == rest.filter_map(f) + seq![b]);
        assert(s.filter_map(f)[rest.filter_map(f).len() as int] == b);
    } else {
        assert(rest[i] == s[i]);
        lemma_filter_map_has(rest, f, i, b);
        let u = choose|u: int| 0 <= u < rest.filter_map(f).len() && rest.filter_map(f)[u] == b;
        assert(s.filter_map(f)[u] == b);
    }
}

/// The texts of a searchable field are among the texts of the fields.
proof fn lemma_field_texts_has(fs: Seq<FieldDef>, fields: StrMap<Value>, q: int, x: Seq<char>)
    requires
        0 <= q < fs.len(),
        fs[q].field_type != FieldType::Image,
        fs[q].field_type != FieldType::SeriesRef,
        fval(fields, fs[q].key@) matches Some(v) && value_texts(v).contains(x),
    ensures
        field_texts(fs, fields).contains(x),
    decreases fs.len(),
{
    let prev = field_texts(fs.drop_last(), fields);
    if q == fs.len() - 1 {
        let vt = value_texts(fval(fields, fs[q].key@).unwrap());
        let w = choose|w: int| 0 <= w < vt.len() && vt[w] == x;
        assert(field_texts(fs, fields) == prev + vt);
        assert(field_texts(fs, fields)[prev.len() + w] == x);
    } else {
        assert(fs.drop_last()[q] == fs[q]);
        lemma_field_texts_has(fs.drop_last(), fields, q, x);
        let w = choose|w: int| 0 <= w < prev.len() && prev[w] == x;
        assert(field_texts(fs, fields)[w] == x);
    }
}

/// Law (every name of a list field is searchable): for a field that is
/// neither an image nor a series reference and holds a list, each text of
/// the list is a part of the item's searchable content.
pub proof fn law_list_texts_are_searchable(
    fs: Seq<FieldDef>,
    series: Seq<Series>,
    item: Item,
    q: int,
    a: Vec<Value>,
    e: int,
    t: String,
)
    requires
        0 <= q < fs.len(),
        fs[q].field_type != FieldType::Image,
        fs[q].field_type != FieldType::SeriesRef,
        item.fields.view().dom().contains(fs[q].key@),
        item.fields.view()[fs[q].key@] == Value::Array(a),
        0 <= e < a@.len(),
        a@[e] == Value::Str(t),
    ensures
        content_parts(fs, series, item).contains(t@),
{
    lemma_filter_map_has(a@, |x: Value| str_of(x), e, t@);
    lemma_field_texts_has(fs, item.fields, q, t@);
    let cp = content_parts(fs, series, item);
    let ft = field_texts(fs, item.fields);
    let w = choose|w: int| 0 <= w < ft.len() && ft[w] == t@;
    assert(cp[cp.len() - ft.len() + w] == t@);
}

/// The texts of one value.
fn texts_of_value(v: &Value) -> (r: Vec<String>)
    ensures
        views(r@) == value_texts(*v),
{
    let mut out: Vec<String> = Vec::new();
    match v {
        Value::Str(t) => {
            out.push(t.clone());
            assert(views(out@) =~= seq![t@]);
        },
        Value::Number(n) => {
            out.push(n.clone());
            assert(views(out@) =~= seq![n@]);
        },
        Value::Array(a) => {
            let ghost f = |x: Value| str_of(x);
            let mut i: usize = 0;
            while i < a.len()
                invariant
                    i <= a@.len(),
                    f == (|x: Value| str_of(x)),
                    views(out@) == a@.take(i as int).filter_map(f),
                decreases a@.len() - i,
            {
                proof {
                    a@.lemma_filter_map_take_succ(f, i as int);
                }
                let ghost before = out@;
                match a[i].as_str() {
                    Some(t) => {
                        out.push(t.clone());
                        assert(views(out@) =~= views(before) + seq![t@]);
                    },
                    None => {},
                }
                i = i + 1;
            }
            assert(a@.take(a@.len() as int) =~= a@);
        },
        _ => {
            assert(views(out@) =~= Seq::<Seq<char>>::empty());
        },
    }
    out
}

fn push_all(out: &mut Vec<String>, more: Vec<String>)
    ensures
        views(final(out)@) == views(old(out)@) + views(more@),
{
    let ghost a = out@;
    let ghost b = more@;
    let mut more = more;
    out.append(&mut more);
    assert(views(out@) =~= views(a) + views(b));
}

/// The searchable text of an item: its words joined by spaces.
pub fn searchable_content(schema: &Schema, series: &Vec<Series>, item: &Item) -> (r: String)
    requires
        item.fields.wf(),
    ensures
        r@ == join_spec(content_parts(schema.fields@, series@, *item), " "@),
{
    let mut parts: Vec<String> = Vec::new();
    parts.push(item.id.clone());
    match &item.cote {
        Some(c) => parts.push(c.clone()),
        None => {},
    }
    match &item.emplacement {
        Some(e) => parts.push(e.clone()),
        None => {},
    }
    let ghost head = views(parts@);
    assert(head =~= seq![item.id@] + opt_seq(item.cote) + opt_seq(item.emplacement));
    let (_, serie_nom, serie_tome) = resolve_series(schema, series, item);
    let ghost before_serie = parts@;
    match serie_nom {
        Some(nom) => {
            parts.push(nom);
            match serie_tome {
                Some(t) => {
                    let mut tt = String::new();
                    push_char(&mut tt, 'T');
                    tt.append(format_i64(t).as_str());
                    parts.push(tt);
                },
                None => {},
            }
        },
        None => {},
    }
    let ghost serie_part = match resolve_series_spec(schema.fields@, series@, item.fields) {
        Some((id, nom, tome)) => seq![nom] + match tome {
            Some(t) => seq![seq!['T'] + crate::text::decimal_int(t as int)],
            None => Seq::empty(),
        },
        None => Seq::<Seq<char>>::empty(),
    };
    assert(views(parts@) =~= head + serie_part);
    let fs = &schema.fields;
    let mut i: usize = 0;
    while i < fs.len()
        invariant
            i <= fs@.len(),
            fs == &schema.fields,
            item.fields.wf(),
            views(parts@) == head + serie_part + field_texts(fs@.take(i as int), item.fields),
        decreases fs@.len() - i,
    {
        assert(fs@.take(i + 1).drop_last() =~= fs@.take(i as int));
        let def = &fs[i];
        if def.field_type != FieldType::Image && def.field_type != FieldType::SeriesRef {
            match item.fields.get(def.key.as_str()) {
                Some(v) => {
                    let more = texts_of_value(v);
                    push_all(&mut parts, more);
                },
                None => {},
            }
        }
        i = i + 1;
    }
    assert(fs@.take(fs@.len() as int) =~= fs@);
    assert(head + serie_part + field_texts(fs@, item.fields) =~= content_parts(schema.fields@, series@, *item));
    join(parts.as_slice(), " ")
}

/// The title shown for an item: its title field, or "(sans titre)".
pub open spec fn title_of_spec(fs: Seq<FieldDef>, fields: StrMap<Value>) -> Seq<char> {
    match title_field_spec(fs) {
        Some(f) => match fval(fields, f.key@) {
            Some(v) => match str_of(v) {
                Some(t) => t,
                None => "(sans titre)"@,
            },
            None => "(sans titre)"@,
        },
        None => "(sans titre)"@,
    }
}

pub fn title_of(schema: &Schema, item: &Item) -> (r: String)
    requires
        item.fields.wf(),
    ensures
        r@ == title_of_spec(schema.fields@, item.fields),
{
    match schema.title_field() {
        Some(f) => match item.fields.get(f.key.as_str()) {
            Some(v) => match v.as_str() {
                Some(t) => t.clone(),
                None => owned("(sans titre)"),
            },
            None => owned("(sans titre)"),
        },
        None => owned("(sans titre)"),
    }
}

/// The stored name of a status.
pub fn statut_name(statut: Statut) -> (r: &'static str)
    ensures
        r@ == (if statut == Statut::Possede { "possede"@ } else { "souhaite"@ }),
{
    match statut {
        Statut::Possede => "possede",
        Statut::Souhaite => "souhaite",
    }
}

/// The values of an item's row in the index.
#[derive(Debug)]
pub struct IndexRow {
    pub titre: String,
    pub statut: &'static str,
    pub serie_id: Option<String>,
    pub serie_nom: Option<String>,
    pub serie_tome: Option<i64>,
    pub genre: Option<String>,
    pub annee: Option<i64>,
    pub content: String,
}

/// What the index stores of an item (its fields are stored as JSON by the
/// caller).
pub fn index_row(schema: &Schema, series: &Vec<Series>, item: &Item) -> (r: IndexRow)
    requires
        item.fields.wf(),
    ensures
        r.titre@ == title_of_spec(schema.fields@, item.fields),
        r.statut@ == (if item.statut == Statut::Possede { "possede"@ } else { "souhaite"@ }),
        series_view((r.serie_id, r.serie_nom, r.serie_tome)) == resolve_series_spec(schema.fields@, series@, item.fields),
        r.serie_id is None ==> r.serie_nom is None && r.serie_tome is None,
        (opt_view(r.genre), r.annee) == genre_annee_spec(*schema, item.fields),
        r.content@ == join_spec(content_parts(schema.fields@, series@, *item), " "@),
{
    let (serie_id, serie_nom, serie_tome) = resolve_series(schema, series, item);
    let (genre, annee) = resolve_genre_annee(schema, item);
    IndexRow {
        titre: title_of(schema, item),
        statut: statut_name(item.statut),
        serie_id,
        serie_nom,
        serie_tome,
        genre,
        annee,
        content: searchable_content(schema, series, item),
    }
}

// ---------------------------------------------------------------------------
// Queries
// ---------------------------------------------------------------------------

/// A value bound to a named SQL parameter.
#[derive(Debug)]
pub enum SqlValue {
    Text(String),
    Int(i64),
    UInt(u32),
}

/// A named SQL parameter.
#[derive(Debug)]
pub struct SqlParam {
    pub name: &'static str,
    pub value: SqlValue,
}

/// The SQL conditions of the filters, in the order statut, genre, year,
/// series, each with its named parameter.
pub open spec fn filter_clauses_spec(statut: Option<Seq<char>>, genre: Option<Seq<char>>, annee: Option<i64>, serie: Option<Seq<char>>) -> Seq<char> {
    (if statut is Some { " AND i.statut = :statut"@ } else { Seq::empty() })
        + (if genre is Some { " AND i.genre = :genre"@ } else { Seq::empty() })
        + (if annee is Some { " AND i.annee = :annee"@ } else { Seq::empty() })
        + (if serie is Some { " AND i.serie_id = :serie"@ } else { Seq::empty() })
}

/// The named parameters of the filters.
pub open spec fn filter_params_ok(ps: Seq<SqlParam>, statut: Option<Seq<char>>, genre: Option<Seq<char>>, annee: Option<i64>, serie: Option<Seq<char>>) -> bool {
    let names = (if statut is Some { seq![":statut"@] } else { Seq::empty() })
        + (if genre is Some { seq![":genre"@] } else { Seq::empty() })
        + (if annee is Some { seq![":annee"@] } else { Seq::empty() })
        + (if serie is Some { seq![":serie"@] } else { Seq::empty() });
    &&& ps.len() == names.len()
    &&& forall|k: int| 0 <= k < ps.len() ==> (#[trigger] ps[k]).name@ == names[k]
    &&& forall|k: int| 0 <= k < ps.len() ==> match (#[trigger] ps[k]).value {
        SqlValue::Text(t) => (ps[k].name@ == ":statut"@ && statut == Some(t@)) || (ps[k].name@ == ":genre"@
            && genre == Some(t@)) || (ps[k].name@ == ":serie"@ && serie == Some(t@)),
        SqlValue::Int(i) => ps[k].name@ == ":annee"@ && annee == Some(i),
        SqlValue::UInt(_) => false,
    }
}

/// SQL conditions and named parameters for the filters.
pub fn filter_clauses(filters: &SearchFilters) -> (r: (String, Vec<SqlParam>))
    ensures
        r.0@ == filter_clauses_spec(opt_view(filters.statut), opt_view(filters.genre), filters.annee, opt_view(filters.serie)),
        filter_params_ok(r.1@, opt_view(filters.statut), opt_view(filters.genre), filters.annee, opt_view(filters.serie)),
{
    let mut clauses = String::new();
    let mut params: Vec<SqlParam> = Vec::new();
    proof {
        reveal_strlit("");
    }
    let ghost c0 = clauses@;
    if let Some(x) = &filters.statut {
        clauses.append(" AND i.statut = :statut");
        params.push(SqlParam { name: ":statut", value: SqlValue::Text(x.clone()) });
    }
    let ghost c1 = clauses@;
    if let Some(x) = &filters.genre {
        clauses.append(" AND i.genre = :genre");
        params.push(SqlParam { name: ":genre", value: SqlValue::Text(x.clone()) });
    }
    let ghost c2 = clauses@;
    if let Some(a) = filters.annee {
        clauses.append(" AND i.annee = :annee");
        params.push(SqlParam { name: ":annee", value: SqlValue::Int(a) });
    }
    let ghost c3 = clauses@;
    if let Some(x) = &filters.serie {
        clauses.append(" AND i.serie_id = :serie");
        params.push(SqlParam { name: ":serie", value: SqlValue::Text(x.clone()) });
    }
    assert(c0 =~= Seq::<char>::empty());
    assert(clauses@ =~= filter_clauses_spec(opt_view(filters.statut), opt_view(filters.genre), filters.annee, opt_view(filters.serie)));
    (clauses, params)
}

/// The ORDER BY clause of a sort key: a white list, never SQL from the
/// interface; missing values always last. Without a known key: relevance
/// for a full-text search, else series, volume and title.
pub open spec fn order_clause_spec(sort: Option<Seq<char>>, desc: bool, has_query: bool) -> Seq<char> {
    let dir = if desc { "DESC"@ } else { "ASC"@ };
    if sort == Some("titre"@) {
        "i.titre COLLATE NOCASE "@ + dir
    } else if sort == Some("cote"@) {
        "i.cote IS NULL, i.cote "@ + dir
    } else if sort == Some("annee"@) {
        "i.annee IS NULL, i.annee "@ + dir + ", i.titre COLLATE NOCASE"@
    } else if sort == Some("serie"@) {
        "i.serie_nom IS NULL, i.serie_nom COLLATE NOCASE "@ + dir + ", i.serie_tome "@ + dir
    } else if sort == Some("date_ajout"@) {
        "i.date_ajout "@ + dir + ", i.id "@ + dir
    } else if sort == Some("emplacement"@) {
        "i.emplacement IS NULL, i.emplacement COLLATE NOCASE "@ + dir
    } else if has_query {
        "rank"@
    } else {
        "i.serie_nom IS NULL, i.serie_nom COLLATE NOCASE, i.serie_tome, i.titre COLLATE NOCASE"@
    }
}

pub fn order_clause(sort: Option<&str>, desc: bool, has_query: bool) -> (r: String)
    ensures
        r@ == order_clause_spec(opt_str_view(sort), desc, has_query),
{
    proof {
        reveal_strlit("");
    }
    let dir = if desc { "DESC" } else { "ASC" };
    let key = match sort {
        Some(k) => k,
        None => "",
    };
    let some = sort.is_some();
    if some && str_eq(key, "titre") {
        concat3("i.titre COLLATE NOCASE ", dir, "")
    } else if some && str_eq(key, "cote") {
        concat3("i.cote IS NULL, i.cote ", dir, "")
    } else if some && str_eq(key, "annee") {
        concat3("i.annee IS NULL, i.annee ", dir, ", i.titre COLLATE NOCASE")
    } else if some && str_eq(key, "serie") {
        let mut out = concat3("i.serie_nom IS NULL, i.serie_nom COLLATE NOCASE ", dir, ", i.serie_tome ");
        out.append(dir);
        out
    } else if some && str_eq(key, "date_ajout") {
        let mut out = concat3("i.date_ajout ", dir, ", i.id ");
        out.append(dir);
        out
    } else if some && str_eq(key, "emplacement") {
        concat3("i.emplacement IS NULL, i.emplacement COLLATE NOCASE ", dir, "")
    } else if has_query {
        owned("rank")
    } else {
        owned("i.serie_nom IS NULL, i.serie_nom COLLATE NOCASE, i.serie_tome, i.titre COLLATE NOCASE")
    }
}

pub open spec fn opt_str_view(o: Option<&str>) -> Option<Seq<char>> {
    match o {
        Some(s) => Some(s@),
        None => None,
    }
}

/// Reading a string by words (`str::split_whitespace`): the words so far
/// and whether the last character read belongs to a word.
pub open spec fn words_acc(s: Seq<char>) -> (Seq<Seq<char>>, bool)
    decreases s.len(),
{
    if s.len() == 0 {
        (Seq::empty(), false)
    } else {
        let (ws, inside) = words_acc(s.drop_last());
        let c = s.last();
        if char_is_whitespace(c) {
            (ws, false)
        } else if inside {
            (ws.update(ws.len() - 1, ws.last().push(c)), true)
        } else {
            (ws.push(seq![c]), true)
        }
    }
}

/// The words of `s`, blanks being separators.
pub open spec fn words(s: Seq<char>) -> Seq<Seq<char>> {
    words_acc(s).0
}

pub proof fn lemma_words_acc(s: Seq<char>)
    ensures
        words_acc(s).1 ==> words_acc(s).0.len() > 0,
    decreases s.len(),
{
    if s.len() > 0 {
        lemma_words_acc(s.drop_last());
    }
}

/// A user query in safe FTS5 syntax: every word becomes a quoted prefix
/// (`"last"* "man"*`), its double quotes removed.
pub open spec fn fts_query_spec(raw: Seq<char>) -> Seq<char> {
    join_spec(
        words(raw).map_values(|w: Seq<char>| seq!['"'] + crate::text::without_chars(w, '"', '"') + seq!['"', '*']),
        " "@,
    )
}

pub fn fts_query(raw: &str) -> (r: String)
    ensures
        r@ == fts_query_spec(raw@),
{
    let cs = chars_of(raw);
    let mut ws: Vec<Vec<char>> = Vec::new();
    let mut inside = false;
    let mut i: usize = 0;
    while i < cs.len()
        invariant
            i <= cs@.len(),
            cs@ == raw@,
            (ws@.map_values(|w: Vec<char>| w@), inside) == words_acc(cs@.take(i as int)),
        decreases cs@.len() - i,
    {
        assert(cs@.take(i + 1).drop_last() =~= cs@.take(i as int));
        proof {
            lemma_words_acc(cs@.take(i as int));
        }
        let c = cs[i];
        let ghost before = ws@.map_values(|w: Vec<char>| w@);
        let ghost prev = words_acc(cs@.take(i as int));
        assert(cs@.take(i + 1).last() == c);
        if is_whitespace(c) {
            inside = false;
            assert(words_acc(cs@.take(i + 1)) == (prev.0, false));
        } else if inside {
            let last = ws.len() - 1;
            let mut w = ws.remove(last);
            assert(w@ == before.last());
            w.push(c);
            ws.push(w);
            assert(words_acc(cs@.take(i + 1)) == (before.update(before.len() - 1, before.last().push(c)), true));
            assert(ws@.map_values(|w: Vec<char>| w@) =~= before.update(before.len() - 1, before.last().push(c)));
        } else {
            let mut w: Vec<char> = Vec::new();
            w.push(c);
            assert(w@ =~= seq![c]);
            ws.push(w);
            inside = true;
            assert(ws@.map_values(|w: Vec<char>| w@) =~= before.push(seq![c]));
            assert(words_acc(cs@.take(i + 1)) == (before.push(seq![c]), true));
        }
        i = i + 1;
    }
    assert(cs@.take(cs@.len() as int) =~= cs@);
    let mut parts: Vec<String> = Vec::new();
    let mut k: usize = 0;
    while k < ws.len()
        invariant
            k <= ws@.len(),
            ws@.map_values(|w: Vec<char>| w@) == words(raw@),
            views(parts@) == words(raw@).take(k as int).map_values(|w: Seq<char>| seq!['"'] + crate::text::without_chars(w, '"', '"') + seq!['"', '*']),
        decreases ws@.len() - k,
    {
        let body = crate::text::remove_chars(&ws[k], '"', '"');
        let mut t = String::new();
        push_char(&mut t, '"');
        t.append(string_of(&body).as_str());
        push_char(&mut t, '"');
        push_char(&mut t, '*');
        let ghost before = parts@;
        parts.push(t);
        proof {
            assert(words(raw@)[k as int] == ws@[k as int]@);
            assert(views(parts@) =~= views(before).push(t@));
            assert(words(raw@).take(k + 1) =~= words(raw@).take(k as int).push(words(raw@)[k as int]));
            assert(t@ =~= seq!['"'] + crate::text::without_chars(ws@[k as int]@, '"', '"') + seq!['"', '*']);
        }
        k = k + 1;
    }
    assert(words(raw@).take(ws@.len() as int) =~= words(raw@));
    join(parts.as_slice(), " ")
}

/// The selected columns of a list row.
pub open spec fn cols_spec() -> Seq<char> {
    "i.collection, i.id, i.titre, i.cote, i.statut, i.emplacement, i.date_ajout, i.serie_nom, i.serie_tome, i.annee, i.data"@
}

/// The SQL of a paginated search: over the items, or over the full-text
/// table joined with the items when there is a query.
pub fn search_sql(has_query: bool, clauses: &str, order: &str) -> (r: String)
    ensures
        r@ == (if has_query {
            "SELECT "@ + cols_spec() + "\n                 FROM items_fts f\n                 JOIN items i ON i.collection = f.collection AND i.id = f.id\n                 WHERE f.collection = :collection AND items_fts MATCH :match"@
                + clauses@ + "\n                 ORDER BY "@ + order@ + " LIMIT :limit OFFSET :offset"@
        } else {
            "SELECT "@ + cols_spec() + "\n                 FROM items i WHERE i.collection = :collection"@ + clauses@
                + "\n                 ORDER BY "@ + order@ + "\n                 LIMIT :limit OFFSET :offset"@
        }),
{
    let mut out = owned("SELECT ");
    out.append("i.collection, i.id, i.titre, i.cote, i.statut, i.emplacement, i.date_ajout, i.serie_nom, i.serie_tome, i.annee, i.data");
    if has_query {
        out.append("\n                 FROM items_fts f\n                 JOIN items i ON i.collection = f.collection AND i.id = f.id\n                 WHERE f.collection = :collection AND items_fts MATCH :match");
        out.append(clauses);
        out.append("\n                 ORDER BY ");
        out.append(order);
        out.append(" LIMIT :limit OFFSET :offset");
    } else {
        out.append("\n                 FROM items i WHERE i.collection = :collection");
        out.append(clauses);
        out.append("\n                 ORDER BY ");
        out.append(order);
        out.append("\n                 LIMIT :limit OFFSET :offset");
    }
    out
}

/// The SQL counting the results of a search.
pub fn count_sql(has_query: bool, clauses: &str) -> (r: String)
    ensures
        r@ == (if has_query {
            "SELECT COUNT(*) FROM items_fts f\n                 JOIN items i ON i.collection = f.collection AND i.id = f.id\n                 WHERE f.collection = :collection AND items_fts MATCH :match"@
                + clauses@
        } else {
            "SELECT COUNT(*) FROM items i WHERE i.collection = :collection"@ + clauses@
        }),
{
    let mut out = if has_query {
        owned("SELECT COUNT(*) FROM items_fts f\n                 JOIN items i ON i.collection = f.collection AND i.id = f.id\n                 WHERE f.collection = :collection AND items_fts MATCH :match")
    } else {
        owned("SELECT COUNT(*) FROM items i WHERE i.collection = :collection")
    };
    out.append(clauses);
    out
}

/// The SQL of the labels to print: owned items with a shelf mark, never
/// labelled or labelled under an older mark, by collection then mark.
pub fn labels_sql(one_collection: bool) -> (r: String)
    ensures
        r@ == "SELECT i.collection, i.id, i.titre, i.cote, i.statut, i.emplacement, i.date_ajout, i.serie_nom, i.serie_tome, i.annee, i.data\n             FROM items i\n             WHERE i.statut = 'possede' AND i.cote IS NOT NULL\n               AND (i.etiquette IS NULL OR i.etiquette != i.cote)"@
            + (if one_collection { " AND i.collection = :collection"@ } else { ""@ }) + "\n             ORDER BY i.collection, i.cote"@,
{
    let clause = if one_collection { " AND i.collection = :collection" } else { "" };
    let mut out = owned("SELECT i.collection, i.id, i.titre, i.cote, i.statut, i.emplacement, i.date_ajout, i.serie_nom, i.serie_tome, i.annee, i.data\n             FROM items i\n             WHERE i.statut = 'possede' AND i.cote IS NOT NULL\n               AND (i.etiquette IS NULL OR i.etiquette != i.cote)");
    out.append(clause);
    out.append("\n             ORDER BY i.collection, i.cote");
    out
}

} // verus!
