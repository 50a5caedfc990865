//! Export of a collection (with the search and filters applied) to CSV or
//! JSON. The CSV headers are the schema's field keys: an export can be
//! imported again as it is. The rows and objects are decided here; the
//! caller writes the file.
use vstd::prelude::*;
use crate::text::{chars_of, join, join_spec, owned, string_of, to_ascii_lower, views, lower, format_i64, decimal_int};
use crate::value::{
    get_spec, json_of, json_pretty_of, json_pretty_text_of, json_text_of, str_of, vview, vviews, StrMap, Value, ValueV,
};
use crate::model::{FieldDef, FieldType, Schema};
use crate::index::IndexedItem;
use crate::hydrate::{applied, fields_view, opt_view};
use crate::import::series_field_spec;

verus! {

/// The system columns, before the schema's fields.
pub fn system_cols() -> (r: Vec<String>)
    ensures
        views(r@) == seq!["id"@, "cote"@, "statut"@, "emplacement"@, "date_ajout"@],
{
    let mut v: Vec<String> = Vec::new();
    v.push(owned("id"));
    v.push(owned("cote"));
    v.push(owned("statut"));
    v.push(owned("emplacement"));
    v.push(owned("date_ajout"));
    assert(views(v@) =~= seq!["id"@, "cote"@, "statut"@, "emplacement"@, "date_ajout"@]);
    v
}

/// The text of a list element in a cell: a string as it is, anything else
/// as JSON.
pub open spec fn element_text(x: Value) -> Seq<char> {
    match x {
        Value::Str(s) => s@,
        _ => json_of(vview(x)),
    }
}

/// The text of a field in a CSV cell: empty for nothing, a string as it
/// is, a list joined by " ; ", `oui` or empty for a boolean, JSON otherwise.
pub open spec fn cell_spec(v: Option<Value>) -> Seq<char> {
    match v {
        None => Seq::empty(),
        Some(Value::Null) => Seq::empty(),
        Some(Value::Str(s)) => s@,
        Some(Value::Array(a)) => join_spec(a@.map_values(|x: Value| element_text(x)), " ; "@),
        Some(Value::Bool(b)) => if b { "oui"@ } else { Seq::empty() },
        Some(other) => json_of(vview(other)),
    }
}

pub fn cell(value: Option<&Value>) -> (r: String)
    ensures
        r@ == cell_spec(crate::hydrate::deref_opt(value)),
{
    match value {
        None => String::new(),
        Some(Value::Null) => String::new(),
        Some(Value::Str(s)) => s.clone(),
        Some(Value::Array(a)) => {
            let mut parts: Vec<String> = Vec::new();
            let mut i: usize = 0;
            while i < a.len()
                invariant
                    i <= a@.len(),
                    views(parts@) == a@.take(i as int).map_values(|x: Value| element_text(x)),
                decreases a@.len() - i,
            {
                let t = match &a[i] {
                    Value::Str(s) => s.clone(),
                    other => json_text_of(other),
                };
                let ghost before = parts@;
                parts.push(t);
                assert(views(parts@) =~= views(before).push(t@));
                assert(a@.take(i + 1).map_values(|x: Value| element_text(x)) =~= a@.take(i as int).map_values(|x: Value| element_text(x)).push(element_text(a@[i as int])));
                i = i + 1;
            }
            assert(a@.take(a@.len() as int) =~= a@);
            join(parts.as_slice(), " ; ")
        },
        Some(Value::Bool(b)) => if *b { owned("oui") } else { String::new() },
        Some(other) => json_text_of(other),
    }
}

/// The exported columns of the schema's fields, in schema order: the
/// series field becomes two readable columns, `serie` (name) and `tome`.
pub open spec fn columns_spec(fs: Seq<FieldDef>) -> Seq<(Seq<char>, FieldType)>
    decreases fs.len(),
{
    if fs.len() == 0 {
        Seq::empty()
    } else {
        let f = fs.last();
        columns_spec(fs.drop_last()) + if f.field_type == FieldType::SeriesRef {
            seq![("serie"@, FieldType::SeriesRef), ("tome"@, FieldType::Number)]
        } else {
            seq![(f.key@, f.field_type)]
        }
    }
}

pub open spec fn column_views(v: Seq<(String, FieldType)>) -> Seq<(Seq<char>, FieldType)> {
    v.map_values(|c: (String, FieldType)| (c.0@, c.1))
}

pub fn schema_columns(schema: &Schema) -> (r: Vec<(String, FieldType)>)
    ensures
        column_views(r@) == columns_spec(schema.fields@),
{
    let mut cols: Vec<(String, FieldType)> = Vec::new();
    let mut i: usize = 0;
    while i < schema.fields.len()
        invariant
            i <= schema.fields@.len(),
            column_views(cols@) == columns_spec(schema.fields@.take(i as int)),
        decreases schema.fields@.len() - i,
    {
        assert(schema.fields@.take(i + 1).drop_last() =~= schema.fields@.take(i as int));
        let f = &schema.fields[i];
        let ghost before = cols@;
        match f.field_type {
            FieldType::SeriesRef => {
                cols.push((owned("serie"), FieldType::SeriesRef));
                cols.push((owned("tome"), FieldType::Number));
                assert(column_views(cols@) =~= column_views(before) + seq![("serie"@, FieldType::SeriesRef), ("tome"@, FieldType::Number)]);
            },
            _ => {
                cols.push((f.key.clone(), f.field_type));
                assert(column_views(cols@) =~= column_views(before) + seq![(f.key@, f.field_type)]);
            },
        }
        i = i + 1;
    }
    assert(schema.fields@.take(schema.fields@.len() as int) =~= schema.fields@);
    cols
}

/// The header record of a CSV export.
pub fn csv_header(columns: &Vec<(String, FieldType)>) -> (r: Vec<String>)
    ensures
        views(r@) == seq!["id"@, "cote"@, "statut"@, "emplacement"@, "date_ajout"@] + column_views(columns@).map_values(|c: (Seq<char>, FieldType)| c.0),
{
    let mut v = system_cols();
    let ghost head = views(v@);
    let mut i: usize = 0;
    while i < columns.len()
        invariant
            i <= columns@.len(),
            views(v@) == head + column_views(columns@.take(i as int)).map_values(|c: (Seq<char>, FieldType)| c.0),
        decreases columns@.len() - i,
    {
        let ghost before = v@;
        v.push(columns[i].0.clone());
        assert(views(v@) =~= views(before).push(columns@[i as int].0@));
        assert(column_views(columns@.take(i + 1)).map_values(|c: (Seq<char>, FieldType)| c.0) =~= column_views(columns@.take(i as int)).map_values(|c: (Seq<char>, FieldType)| c.0).push(columns@[i as int].0@));
        i = i + 1;
    }
    assert(columns@.take(columns@.len() as int) =~= columns@);
    v
}

pub open spec fn or_empty(o: Option<String>) -> Seq<char> {
    match o {
        Some(s) => s@,
        None => Seq::empty(),
    }
}

/// The cell of a column for a row: the series name and volume for the two
/// series columns, the field's cell otherwise.
pub open spec fn column_cell(c: (Seq<char>, FieldType), row: IndexedItem) -> Seq<char> {
    if c.0 == "serie"@ && c.1 == FieldType::SeriesRef {
        or_empty(row.serie_nom)
    } else if c.0 == "tome"@ {
        match row.serie_tome {
            Some(t) => decimal_int(t as int),
            None => Seq::empty(),
        }
    } else {
        cell_spec(get_spec(row.data, c.0))
    }
}

/// The record of a row in a CSV export.
pub fn csv_record(columns: &Vec<(String, FieldType)>, row: &IndexedItem) -> (r: Vec<String>)
    ensures
        views(r@) == seq![row.id@, or_empty(row.cote), row.statut@, or_empty(row.emplacement), row.date_ajout@]
            + column_views(columns@).map_values(|c: (Seq<char>, FieldType)| column_cell(c, *row)),
{
    let mut v: Vec<String> = Vec::new();
    v.push(row.id.clone());
    v.push(match &row.cote {
        Some(c) => c.clone(),
        None => String::new(),
    });
    v.push(row.statut.clone());
    v.push(match &row.emplacement {
        Some(e) => e.clone(),
        None => String::new(),
    });
    v.push(row.date_ajout.clone());
    let ghost head = views(v@);
    assert(head =~= seq![row.id@, or_empty(row.cote), row.statut@, or_empty(row.emplacement), row.date_ajout@]);
    let mut i: usize = 0;
    while i < columns.len()
        invariant
            i <= columns@.len(),
            views(v@) == head + column_views(columns@.take(i as int)).map_values(|c: (Seq<char>, FieldType)| column_cell(c, *row)),
        decreases columns@.len() - i,
    {
        let key = columns[i].0.as_str();
        let value = if crate::text::str_eq(key, "serie") && columns[i].1 == FieldType::SeriesRef {
            match &row.serie_nom {
                Some(n) => n.clone(),
                None => String::new(),
            }
        } else if crate::text::str_eq(key, "tome") {
            match row.serie_tome {
                Some(t) => format_i64(t),
                None => String::new(),
            }
        } else {
            cell(row.data.get(key))
        };
        let ghost before = v@;
        v.push(value);
        assert(views(v@) =~= views(before).push(value@));
        assert(column_views(columns@.take(i + 1)).map_values(|c: (Seq<char>, FieldType)| column_cell(c, *row)) =~= column_views(columns@.take(i as int)).map_values(|c: (Seq<char>, FieldType)| column_cell(c, *row)).push(column_cell((columns@[i as int].0@, columns@[i as int].1), *row)));
        i = i + 1;
    }
    assert(columns@.take(columns@.len() as int) =~= columns@);
    v
}

pub open spec fn str_or_null(o: Option<String>) -> ValueV {
    match o {
        Some(s) => ValueV::Str(s@),
        None => ValueV::Null,
    }
}

/// Writes to other keys leave a key's value as it is.
proof fn lemma_applied_untouched(a: Seq<(Seq<char>, ValueV)>, b: Seq<(Seq<char>, ValueV)>, k: Seq<char>)
    requires
        forall|j: int| 0 <= j < b.len() ==> (#[trigger] b[j]).0 != k,
    ensures
        applied(a + b).dom().contains(k) == applied(a).dom().contains(k),
        applied(a + b)[k] == applied(a)[k],
    decreases b.len(),
{
    if b.len() > 0 {
        let b1 = b.drop_last();
        assert forall|j: int| 0 <= j < b1.len() implies (#[trigger] b1[j]).0 != k by {
            assert(b1[j] == b[j]);
        }
        lemma_applied_untouched(a, b1, k);
        assert((a + b).drop_last() =~= a + b1);
        assert((a + b).last() == b.last());
        assert(b.last() == b[b.len() - 1]);
    } else {
        assert(a + b =~= a);
    }
}

/// Law (the JSON object carries the shelf mark): when no field of the
/// schema is named `cote`, the object of a row has a member `cote` that is
/// the row's shelf mark as a string, or null without one, whatever the
/// row's location.
pub proof fn law_json_object_cote(fs: Seq<FieldDef>, row: IndexedItem)
    requires
        forall|j: int| 0 <= j < fs.len() ==> (#[trigger] fs[j]).key@ != "cote"@,
    ensures
        applied(object_writes(fs, row)).dom().contains("cote"@),
        applied(object_writes(fs, row))["cote"@] == match row.cote {
            Some(c) => ValueV::Str(c@),
            None => ValueV::Null,
        },
{
    reveal_strlit("cote");
    reveal_strlit("statut");
    reveal_strlit("emplacement");
    reveal_strlit("date_ajout");
    reveal_strlit("id");
    let ws = object_writes(fs, row);
    let head = seq![
        ("id"@, ValueV::Str(row.id@)),
        ("cote"@, str_or_null(row.cote)),
        ("statut"@, ValueV::Str(row.statut@)),
        ("emplacement"@, str_or_null(row.emplacement)),
        ("date_ajout"@, ValueV::Str(row.date_ajout@)),
    ];
    let tail = ws.subrange(5, ws.len() as int);
    assert(ws =~= head + tail);
    assert forall|j: int| 0 <= j < tail.len() implies (#[trigger] tail[j]).0 != "cote"@ by {
        assert(tail[j] == ws[j + 5]);
        assert(tail[j].0 == fs[j].key@);
    }
    lemma_applied_untouched(head, tail, "cote"@);
    let two = seq![("id"@, ValueV::Str(row.id@)), ("cote"@, str_or_null(row.cote))];
    let rest = seq![
        ("statut"@, ValueV::Str(row.statut@)),
        ("emplacement"@, str_or_null(row.emplacement)),
        ("date_ajout"@, ValueV::Str(row.date_ajout@)),
    ];
    assert(head =~= two + rest);
    assert forall|j: int| 0 <= j < rest.len() implies (#[trigger] rest[j]).0 != "cote"@ by {
        assert("statut"@.len() != "cote"@.len());
        assert("emplacement"@.len() != "cote"@.len());
        assert("date_ajout"@.len() != "cote"@.len());
    }
    lemma_applied_untouched(two, rest, "cote"@);
    assert(two.drop_last() =~= seq![("id"@, ValueV::Str(row.id@))]);
}

/// The members of a row's JSON object, in order of writing (a later
/// member of the same key wins): the system values, then every field of
/// the schema, the series field as `{"nom", "tome"}`, a missing field as
/// `null`.
pub open spec fn object_writes(fs: Seq<FieldDef>, row: IndexedItem) -> Seq<(Seq<char>, ValueV)> {
    let serie_key = match series_field_spec(fs) {
        Some(f) => Some(f.key@),
        None => None,
    };
    seq![
        ("id"@, ValueV::Str(row.id@)),
        ("cote"@, str_or_null(row.cote)),
        ("statut"@, ValueV::Str(row.statut@)),
        ("emplacement"@, str_or_null(row.emplacement)),
        ("date_ajout"@, ValueV::Str(row.date_ajout@)),
    ] + fs.map_values(|f: FieldDef| (f.key@, if serie_key == Some(f.key@) {
        ValueV::Object(seq![
            ("nom"@, str_or_null(row.serie_nom)),
            ("tome"@, match row.serie_tome {
                Some(t) => ValueV::Number(decimal_int(t as int)),
                None => ValueV::Null,
            }),
        ])
    } else {
        match get_spec(row.data, f.key@) {
            Some(v) => vview(v),
            None => ValueV::Null,
        }
    }))
}

fn str_or_null_value(o: &Option<String>) -> (r: Value)
    ensures
        vview(r) == str_or_null(*o),
{
    match o {
        Some(s) => Value::Str(s.clone()),
        None => Value::Null,
    }
}

/// The JSON object of a row: its members are those of `object_writes`.
pub fn json_object(schema: &Schema, row: &IndexedItem) -> (r: StrMap<Value>)
    ensures
        r.wf(),
        fields_view(r) == applied(object_writes(schema.fields@, *row)),
{
    let serie_key: Option<String> = match crate::import::series_field(schema) {
        Some(i) => Some(schema.fields[i].key.clone()),
        None => None,
    };
    let ghost sk = match series_field_spec(schema.fields@) {
        Some(f) => Some(f.key@),
        None => None::<Seq<char>>,
    };
    assert(opt_view(serie_key) == sk);
    let mut obj: StrMap<Value> = StrMap::new();
    assert(fields_view(obj) =~= applied(Seq::empty()));
    let ghost mut ws: Seq<(Seq<char>, ValueV)> = Seq::empty();
    let k_id = owned("id");
    let k_cote = owned("cote");
    let k_statut = owned("statut");
    let k_emp = owned("emplacement");
    let k_date = owned("date_ajout");
    crate::hydrate::write_value(&mut obj, &k_id, Value::Str(row.id.clone()), Ghost(ws));
    proof { ws = ws + seq![("id"@, ValueV::Str(row.id@))]; }
    crate::hydrate::write_value(&mut obj, &k_cote, str_or_null_value(&row.cote), Ghost(ws));
    proof { ws = ws + seq![("cote"@, str_or_null(row.cote))]; }
    crate::hydrate::write_value(&mut obj, &k_statut, Value::Str(row.statut.clone()), Ghost(ws));
    proof { ws = ws + seq![("statut"@, ValueV::Str(row.statut@))]; }
    crate::hydrate::write_value(&mut obj, &k_emp, str_or_null_value(&row.emplacement), Ghost(ws));
    proof { ws = ws + seq![("emplacement"@, str_or_null(row.emplacement))]; }
    crate::hydrate::write_value(&mut obj, &k_date, Value::Str(row.date_ajout.clone()), Ghost(ws));
    proof { ws = ws + seq![("date_ajout"@, ValueV::Str(row.date_ajout@))]; }
    let ghost head = ws;
    let ghost fw = |f: FieldDef| (f.key@, if sk == Some(f.key@) {
        ValueV::Object(seq![
            ("nom"@, str_or_null(row.serie_nom)),
            ("tome"@, match row.serie_tome {
                Some(t) => ValueV::Number(decimal_int(t as int)),
                None => ValueV::Null,
            }),
        ])
    } else {
        match get_spec(row.data, f.key@) {
            Some(v) => vview(v),
            None => ValueV::Null,
        }
    });
    let mut i: usize = 0;
    while i < schema.fields.len()
        invariant
            i <= schema.fields@.len(),
            obj.wf(),
            opt_view(serie_key) == sk,
            fw == (|f: FieldDef| (f.key@, if sk == Some(f.key@) {
                ValueV::Object(seq![
                    ("nom"@, str_or_null(row.serie_nom)),
                    ("tome"@, match row.serie_tome {
                        Some(t) => ValueV::Number(decimal_int(t as int)),
                        None => ValueV::Null,
                    }),
                ])
            } else {
                match get_spec(row.data, f.key@) {
                    Some(v) => vview(v),
                    None => ValueV::Null,
                }
            })),
            ws == head + schema.fields@.take(i as int).map_values(fw),
            fields_view(obj) == applied(ws),
        decreases schema.fields@.len() - i,
    {
        let f = &schema.fields[i];
        let is_serie = match &serie_key {
            Some(k) => crate::text::str_eq(k.as_str(), f.key.as_str()),
            None => false,
        };
        let v: Value = if is_serie {
            let mut members: Vec<(String, Value)> = Vec::new();
            let nom = str_or_null_value(&row.serie_nom);
            let tome = match row.serie_tome {
                Some(t) => Value::Number(format_i64(t)),
                None => Value::Null,
            };
            let p1 = (owned("nom"), nom);
            let p2 = (owned("tome"), tome);
            members.push(p1);
            proof {
                crate::value::lemma_mviews_push(Seq::empty(), p1);
                assert(Seq::<(String, Value)>::empty().push(p1) =~= members@);
            }
            let ghost m1 = members@;
            members.push(p2);
            proof {
                crate::value::lemma_mviews_push(m1, p2);
                assert(crate::value::mviews(members@) =~= seq![
                    ("nom"@, str_or_null(row.serie_nom)),
                    ("tome"@, match row.serie_tome {
                        Some(t) => ValueV::Number(decimal_int(t as int)),
                        None => ValueV::Null,
                    }),
                ]);
            }
            Value::Object(members)
        } else {
            match row.data.get(f.key.as_str()) {
                Some(x) => x.clone(),
                None => Value::Null,
            }
        };
        let ghost entry = fw(schema.fields@[i as int]);
        assert(vview(v) == entry.1);
        crate::hydrate::write_value(&mut obj, &f.key, v, Ghost(ws));
        proof {
            assert(schema.fields@.take(i + 1).map_values(fw) =~= schema.fields@.take(i as int).map_values(fw).push(entry));
            ws = ws + seq![(f.key@, vview(v))];
        }
        i = i + 1;
    }
    assert(schema.fields@.take(schema.fields@.len() as int) =~= schema.fields@);
    assert(ws =~= object_writes(schema.fields@, *row));
    obj
}

/// Whether an export path's extension asks for JSON (in any case).
pub fn wants_json(extension: Option<&str>) -> (r: bool)
    ensures
        r == match extension {
            Some(e) => e@.map_values(|c: char| lower(c)) == "json"@,
            None => false,
        },
{
    match extension {
        Some(e) => {
            let cs = chars_of(e);
            let mut low: Vec<char> = Vec::new();
            let mut i: usize = 0;
            while i < cs.len()
                invariant
                    i <= cs@.len(),
                    low@ == cs@.take(i as int).map_values(|c: char| lower(c)),
                decreases cs@.len() - i,
            {
                low.push(to_ascii_lower(cs[i]));
                i = i + 1;
                assert(low@ =~= cs@.take(i as int).map_values(|c: char| lower(c)));
            }
            assert(cs@.take(cs@.len() as int) =~= cs@);
            crate::text::str_eq(string_of(&low).as_str(), "json")
        },
        None => false,
    }
}

/// The text of a JSON export: the objects (see `json_object`) as an
/// indented JSON array, written by serde_json.
pub fn json_array_text(objects: Vec<StrMap<Value>>) -> (r: String)
    ensures
        r@ == json_pretty_of(ValueV::Array(vviews(objects@.map_values(|o: StrMap<Value>| Value::Object(o.entries))))),
{
    let ghost orig = objects@;
    let ghost f = |o: StrMap<Value>| Value::Object(o.entries);
    let mut objs = objects;
    let mut vals: Vec<Value> = Vec::new();
    assert(objs@ == orig.take(orig.len() as int));
    while objs.len() > 0
        invariant
            objs@.len() <= orig.len(),
            objs@ == orig.take(objs@.len() as int),
            f == (|o: StrMap<Value>| Value::Object(o.entries)),
            vals@ == orig.subrange(objs@.len() as int, orig.len() as int).map_values(f),
        decreases objs@.len(),
    {
        let ghost before = objs@;
        let o = objs.pop().unwrap();
        let ghost m = objs@.len() as int;
        assert(o == orig[m]) by {
            assert(before[m] == orig.take(before.len() as int)[m]);
        }
        assert(objs@ =~= orig.take(m));
        let ghost vb = vals@;
        vals.insert(0, Value::Object(o.entries));
        assert(vals@ =~= orig.subrange(m, orig.len() as int).map_values(f)) by {
            assert forall|q: int| 0 <= q < vals@.len() implies vals@[q] == orig.subrange(m, orig.len() as int).map_values(f)[q] by {
                if q > 0 {
                    assert(vals@[q] == vb[q - 1]);
                }
            }
        }
    }
    assert(vals@ =~= orig.map_values(f));
    let arr = Value::Array(vals);
    json_pretty_text_of(&arr)
}

} // verus!
