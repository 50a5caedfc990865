//! Generic CSV import: columns mapped onto schema fields, cleaning, series
//! created on the fly and genre lists enriched. Works for any CSV, not only
//! the first import of a collection.
use vstd::prelude::*;
use crate::text::{
    chars_of, find, find_spec, first, is_alnum, is_ascii_alphanumeric, is_first, lemma_first_none,
    lemma_first_some, lowercase, opt_int, owned, push_char, seq_eq, str_eq, string_of, to_lowercase,
    trim, trim_chars, trim_end_char, trim_end_chars, trim_spec, trim_start_char, trim_start_chars, views,
};
use crate::store::{counters_room, cote_text, seq_of, id_text, series_key, sorted_by_name, find_series, same_id, sort_series, cote_prefix_spec, Library};
use crate::model::{
    contains_string, is_required_text, is_text, add_option_with_unique_code, codes, derive_code_spec, distinct_codes, unique_code_spec, field_spec, key_is, law_added_code_keeps_codes_distinct, title_field_spec,
    unaccent, unaccent_spec, Counters, FieldDef, FieldType, Item, Schema, SelectOption, Series, Statut,
};
use crate::hydrate::{fields_view, find_map, find_target, matcher, strs, target_spec};
use crate::value::{lemma_mviews_push, mviews, as_i64_spec, get_spec, str_of, str_value, vview, StrMap, Value, ValueV};
use crate::text::{join_spec, format_u128, decimal, lex_le, lex_le_exec, lemma_lex_total, lemma_lex_trans, decimal_int, format_i64, is_blank, parse_i64, parse_i64_spec, remove_chars, without_chars};

verus! {

/// Target of a column that is not imported.
pub const TARGET_IGNORE: &'static str = "__ignore";
/// Target of the column holding the series name.
pub const TARGET_SERIE: &'static str = "__serie";
/// Target of the column holding the volume number.
pub const TARGET_TOME: &'static str = "__tome";

// ---------------------------------------------------------------------------
// Text helpers
// ---------------------------------------------------------------------------

/// The characters of `s` with accents stripped.
pub open spec fn unaccented(s: Seq<char>) -> Seq<char> {
    s.map_values(|c: char| unaccent_spec(c))
}

/// A label trimmed, without accents and in lower case, for comparisons.
pub open spec fn normalize_spec(s: Seq<char>) -> Seq<char> {
    lowercase(unaccented(trim_spec(s)))
}

/// Lower case without accents, to compare labels.
pub fn normalize(s: &str) -> (r: String)
    ensures
        r@ == normalize_spec(s@),
{
    let t = chars_of(trim(s));
    let mut u: Vec<char> = Vec::new();
    let mut i: usize = 0;
    while i < t.len()
        invariant
            i <= t@.len(),
            t@ == trim_spec(s@),
            u@ == unaccented(t@.take(i as int)),
        decreases t@.len() - i,
    {
        u.push(unaccent(t[i]));
        i = i + 1;
        assert(u@ =~= unaccented(t@.take(i as int)));
    }
    assert(t@.take(t@.len() as int) =~= t@);
    let us = string_of(&u);
    to_lowercase(us.as_str())
}

/// The slug of a normalised label, before trailing dashes are dropped:
/// ASCII letters and digits kept, any other run of characters becoming a
/// single dash (none at the start).
pub open spec fn slug_acc(s: Seq<char>) -> Seq<char>
    decreases s.len(),
{
    if s.len() == 0 {
        s
    } else {
        let acc = slug_acc(s.drop_last());
        let c = s.last();
        if is_alnum(c) {
            acc.push(c)
        } else if acc.len() > 0 && acc.last() != '-' {
            acc.push('-')
        } else {
            acc
        }
    }
}

/// The identifier derived from a series name: `Dragon Ball Super` gives
/// `dragon-ball-super`.
pub open spec fn slugify_spec(s: Seq<char>) -> Seq<char> {
    trim_end_char(slug_acc(normalize_spec(s)), '-')
}

/// The slug of a normalised label: ASCII letters and digits kept, any
/// other run of characters a single dash, no dash at either end.
pub fn slug_of_normalized(n: &str) -> (r: String)
    ensures
        r@ == trim_end_char(slug_acc(n@), '-'),
{
    let cs = chars_of(n);
    let mut slug: Vec<char> = Vec::new();
    let mut i: usize = 0;
    while i < cs.len()
        invariant
            i <= cs@.len(),
            cs@ == n@,
            slug@ == slug_acc(cs@.take(i as int)),
        decreases cs@.len() - i,
    {
        assert(cs@.take(i + 1).drop_last() =~= cs@.take(i as int));
        let c = cs[i];
        if is_ascii_alphanumeric(c) {
            slug.push(c);
        } else if slug.len() > 0 && slug[slug.len() - 1] != '-' {
            slug.push('-');
        }
        i = i + 1;
    }
    assert(cs@.take(cs@.len() as int) =~= cs@);
    string_of(&trim_end_chars(&slug, '-'))
}

/// The identifier derived from a series name (see `slugify_spec`).
pub fn slugify(s: &str) -> (r: String)
    ensures
        r@ == slugify_spec(s@),
{
    let n = normalize(s);
    slug_of_normalized(n.as_str())
}

/// "Le Lay, Delphine" gives "Delphine Le Lay"; without a comma (or with
/// nothing after it), the name is only trimmed.
pub open spec fn nom_prenom_spec(s: Seq<char>) -> Seq<char> {
    match find_spec(s, seq![','], 0) {
        Some(i) => {
            let nom = s.subrange(0, i);
            let prenom = s.subrange(i + 1, s.len() as int);
            if trim_spec(prenom).len() > 0 {
                trim_spec(prenom) + seq![' '] + trim_spec(nom)
            } else {
                trim_spec(s)
            }
        },
        None => trim_spec(s),
    }
}

pub fn nom_prenom(s: &str) -> (r: String)
    ensures
        r@ == nom_prenom_spec(s@),
{
    let cs = chars_of(s);
    let mut comma: Vec<char> = Vec::new();
    comma.push(',');
    assert(comma@ =~= seq![',']);
    match find(&cs, &comma, 0) {
        Some(i) => {
            assert(cs@.len() == cs.len());
            let nom = crate::hydrate::span(&cs, 0, i);
            let prenom = crate::hydrate::span(&cs, i + 1, cs.len());
            let p = trim_chars(&prenom);
            if p.len() > 0 {
                let n = trim_chars(&nom);
                let mut out = string_of(&p);
                push_char(&mut out, ' ');
                out.append(string_of(&n).as_str());
                out
            } else {
                owned(trim(s))
            }
        },
        None => owned(trim(s)),
    }
}

// ---------------------------------------------------------------------------
// Reading a CSV
// ---------------------------------------------------------------------------

/// A record of the CSV (its fields), or the reader's error message.
pub open spec fn row_view(r: Result<Vec<String>, String>) -> Result<Seq<Seq<char>>, Seq<char>> {
    match r {
        Ok(v) => Ok(views(v@)),
        Err(e) => Err(e@),
    }
}

pub open spec fn rows_view(rs: Seq<Result<Vec<String>, String>>) -> Seq<Result<Seq<Seq<char>>, Seq<char>>> {
    rs.map_values(|r: Result<Vec<String>, String>| row_view(r))
}

/// What the `csv` crate reads from the bytes of a file, with a flexible
/// record length: the header record, then every record, each a list of
/// fields or an error message.
pub uninterp spec fn csv_table(bytes: Seq<u8>) -> (Result<Seq<Seq<char>>, Seq<char>>, Seq<Result<Seq<Seq<char>>, Seq<char>>>);

/// Reads CSV bytes with `csv::ReaderBuilder` (flexible records): the
/// headers and the records, errors rendered as text. The contract names the
/// result as a function of the bytes; the CSV grammar is not restated.
#[verifier::external_body]
pub(crate) fn read_csv(bytes: &[u8]) -> (r: (Result<Vec<String>, String>, Vec<Result<Vec<String>, String>>))
    ensures
        (row_view(r.0), rows_view(r.1@)) == csv_table(bytes@),
{
    let mut reader = csv::ReaderBuilder::new().flexible(true).from_reader(bytes);
    let headers = reader.headers().map(|h| h.iter().map(|x| x.to_string()).collect()).map_err(|e| e.to_string());
    let records = reader.records().map(|r| r.map(|x| x.iter().map(|f| f.to_string()).collect()).map_err(|e| e.to_string())).collect();
    (headers, records)
}

/// A header without the byte-order marks that Excel puts in front.
pub open spec fn clean_header(h: Seq<char>) -> Seq<char> {
    trim_start_char(h, '\u{feff}')
}

/// Headers without their byte-order marks.
pub fn clean_headers(headers: &Vec<String>) -> (r: Vec<String>)
    ensures
        views(r@) == views(headers@).map_values(|h: Seq<char>| clean_header(h)),
{
    let mut out: Vec<String> = Vec::new();
    let mut i: usize = 0;
    while i < headers.len()
        invariant
            i <= headers@.len(),
            views(out@) == views(headers@.take(i as int)).map_values(|h: Seq<char>| clean_header(h)),
        decreases headers@.len() - i,
    {
        let hc = chars_of(headers[i].as_str());
        let h = string_of(&trim_start_chars(&hc, '\u{feff}'));
        let ghost before = out@;
        out.push(h);
        assert(views(headers@.take(i + 1)) =~= views(headers@.take(i as int)).push(headers@[i as int]@));
        assert(views(out@) =~= views(before).push(h@));
        assert(views(out@) =~= views(headers@.take(i + 1)).map_values(|h: Seq<char>| clean_header(h)));
        i = i + 1;
    }
    assert(headers@.take(headers@.len() as int) =~= headers@);
    out
}

/// The first five records of a CSV with their headers, and the number of
/// records.
#[derive(Debug)]
pub struct CsvPreview {
    pub headers: Vec<String>,
    pub rows: Vec<Vec<String>>,
    pub total_rows: usize,
}

/// The first error among records, if any.
pub open spec fn first_error(rs: Seq<Result<Seq<Seq<char>>, Seq<char>>>) -> Option<Seq<char>>
    decreases rs.len(),
{
    if rs.len() == 0 {
        None
    } else {
        match rs[0] {
            Err(e) => Some(e),
            Ok(_) => first_error(rs.drop_first()),
        }
    }
}

/// What a preview shows of a table: an error for the headers or the first
/// failing record; otherwise the cleaned headers, the first five records
/// and their number.
pub open spec fn preview_spec(t: (Result<Seq<Seq<char>>, Seq<char>>, Seq<Result<Seq<Seq<char>>, Seq<char>>>)) -> Result<(Seq<Seq<char>>, Seq<Seq<Seq<char>>>, nat), Seq<char>> {
    match t.0 {
        Err(e) => Err(e),
        Ok(h) => match first_error(t.1) {
            Some(e) => Err(e),
            None => Ok((
                h.map_values(|x: Seq<char>| clean_header(x)),
                crate::hydrate::first_n(t.1, 5).map_values(|r: Result<Seq<Seq<char>>, Seq<char>>| r->Ok_0),
                t.1.len(),
            )),
        },
    }
}

pub open spec fn preview_view(p: CsvPreview) -> (Seq<Seq<char>>, Seq<Seq<Seq<char>>>, nat) {
    (views(p.headers@), p.rows@.map_values(|r: Vec<String>| views(r@)), p.total_rows as nat)
}

/// The preview of a read table.
pub fn preview_table(headers: Result<Vec<String>, String>, records: Vec<Result<Vec<String>, String>>) -> (r: Result<CsvPreview, String>)
    ensures
        match r {
            Ok(p) => preview_spec((row_view(headers), rows_view(records@))) == Ok::<(Seq<Seq<char>>, Seq<Seq<Seq<char>>>, nat), Seq<char>>(preview_view(p)),
            Err(e) => preview_spec((row_view(headers), rows_view(records@))) == Err::<(Seq<Seq<char>>, Seq<Seq<Seq<char>>>, nat), Seq<char>>(e@),
        },
{
    let ghost hv = row_view(headers);
    let hs = match headers {
        Ok(h) => h,
        Err(e) => return Err(e),
    };
    assert(hv == Ok::<Seq<Seq<char>>, Seq<char>>(views(hs@)));
    let headers_clean = clean_headers(&hs);
    let ghost rv = rows_view(records@);
    let mut rows: Vec<Vec<String>> = Vec::new();
    let mut total_rows: usize = 0;
    let mut i: usize = 0;
    assert(rv.skip(0) =~= rv);
    while i < records.len()
        invariant
            i <= records@.len(),
            rv == rows_view(records@),
            hv == Ok::<Seq<Seq<char>>, Seq<char>>(views(hs@)),
            hv == row_view(headers),
            total_rows == i,
            rows@.len() == if i < 5 { i as int } else { 5 },
            forall|k: int| 0 <= k < rows@.len() ==> views(#[trigger] rows@[k]@) == rv[k]->Ok_0,
            forall|k: int| 0 <= k < i ==> (#[trigger] rv[k]) is Ok,
            first_error(rv) == first_error(rv.skip(i as int)),
        decreases records@.len() - i,
    {
        let ghost rest = rv.skip(i as int);
        assert(rest.drop_first() =~= rv.skip(i + 1));
        assert(rest[0] == rv[i as int]);
        match &records[i] {
            Err(e) => {
                assert(rv[i as int] == row_view(records@[i as int]));
                assert(first_error(rest) == Some(e@));
                return Err(e.clone());
            },
            Ok(rec) => {
                assert(rv[i as int] == row_view(records@[i as int]));
                if rows.len() < 5 {
                    let copy = crate::hydrate::clone_strings(rec);
                    rows.push(copy);
                }
            },
        }
        total_rows = total_rows + 1;
        i = i + 1;
    }
    assert(rv.skip(i as int) =~= Seq::<Result<Seq<Seq<char>>, Seq<char>>>::empty());
    let p = CsvPreview { headers: headers_clean, rows, total_rows };
    proof {
        let want = crate::hydrate::first_n(rv, 5).map_values(|r: Result<Seq<Seq<char>>, Seq<char>>| r->Ok_0);
        assert(p.rows@.map_values(|r: Vec<String>| views(r@)) =~= want);
    }
    Ok(p)
}

/// Reads the headers, the first five records and the number of records of
/// a CSV file's bytes.
pub fn preview_csv(bytes: &[u8]) -> (r: Result<CsvPreview, String>)
    ensures
        match r {
            Ok(p) => preview_spec(csv_table(bytes@)) == Ok::<(Seq<Seq<char>>, Seq<Seq<Seq<char>>>, nat), Seq<char>>(preview_view(p)),
            Err(e) => preview_spec(csv_table(bytes@)) == Err::<(Seq<Seq<char>>, Seq<Seq<Seq<char>>>, nat), Seq<char>>(e@),
        },
{
    let (headers, records) = read_csv(bytes);
    preview_table(headers, records)
}

// ---------------------------------------------------------------------------
// Import settings and report
// ---------------------------------------------------------------------------

/// A column of the CSV and where it goes.
#[derive(Debug)]
pub struct ColumnMapping {
    pub column: String,
    /// A schema field key, or `__ignore`, `__serie`, `__tome`.
    pub target: String,
    /// Optional transformation: `nom_prenom` ("Le Lay, Delphine" becomes
    /// "Delphine Le Lay").
    pub transform: Option<String>,
}

#[derive(Debug)]
pub struct ImportOptions {
    /// Do not import again an object already present (same EAN, or same
    /// title, author and publisher).
    pub skip_duplicates: bool,
    /// A row whose series has the title's name, without a volume, is a
    /// one-shot (no series created).
    pub oneshot_if_serie_equals_titre: bool,
}

#[derive(Debug)]
pub struct ImportReport {
    pub total_rows: usize,
    pub imported: usize,
    pub skipped_duplicates: usize,
    pub series_created: usize,
    pub genres_added: Vec<String>,
    pub errors: Vec<String>,
}

impl Default for ImportReport {
    fn default() -> (r: ImportReport)
        ensures
            r.total_rows == 0 && r.imported == 0 && r.skipped_duplicates == 0 && r.series_created == 0,
            r.genres_added@.len() == 0 && r.errors@.len() == 0,
    {
        ImportReport {
            total_rows: 0,
            imported: 0,
            skipped_duplicates: 0,
            series_created: 0,
            genres_added: Vec::new(),
            errors: Vec::new(),
        }
    }
}

// ---------------------------------------------------------------------------
// Duplicates
// ---------------------------------------------------------------------------

pub open spec fn fval(fields: StrMap<Value>, k: Seq<char>) -> Option<Value> {
    if fields.view().dom().contains(k) {
        Some(fields.view()[k])
    } else {
        None
    }
}

/// The EAN used to detect a duplicate: field `ean`, else `isbn`, as text
/// without blanks and dashes, when not empty.
pub open spec fn dedup_ean(fields: StrMap<Value>) -> Option<Seq<char>> {
    let v = match fval(fields, "ean"@) {
        Some(x) => Some(x),
        None => fval(fields, "isbn"@),
    };
    match v {
        Some(Value::Str(t)) => {
            let c = without_chars(t@, ' ', '-');
            if c.len() > 0 { Some(c) } else { None }
        },
        _ => None,
    }
}

/// Law (the duplicate code falls back on the ISBN): fields without an
/// `ean` whose `isbn` is a text with something left once spaces and
/// dashes are removed are known by that ISBN, spaces and dashes removed.
pub proof fn law_dedup_code_reads_isbn(fields: StrMap<Value>, t: String)
    requires
        !fields.view().dom().contains("ean"@),
        fields.view().dom().contains("isbn"@),
        fields.view()["isbn"@] == Value::Str(t),
        without_chars(t@, ' ', '-').len() > 0,
    ensures
        dedup_ean(fields) == Some(without_chars(t@, ' ', '-')),
{
}

/// Law (the EAN comes first): fields whose `ean` is a text with something
/// left once spaces and dashes are removed are known by it, whatever their
/// `isbn`.
pub proof fn law_dedup_code_reads_ean(fields: StrMap<Value>, t: String)
    requires
        fields.view().dom().contains("ean"@),
        fields.view()["ean"@] == Value::Str(t),
        without_chars(t@, ' ', '-').len() > 0,
    ensures
        dedup_ean(fields) == Some(without_chars(t@, ' ', '-')),
{
}

/// The first series field of a schema.
pub open spec fn series_field_spec(fs: Seq<FieldDef>) -> Option<FieldDef> {
    match first(fs, |f: FieldDef| f.field_type == FieldType::SeriesRef) {
        Some(i) => Some(fs[i]),
        None => None,
    }
}

/// The normalised names of a field: a text, or the texts of a list joined
/// by `;`; nothing for anything else.
pub open spec fn names_key(v: Value) -> Seq<char> {
    match v {
        Value::Str(t) => normalize_spec(t@),
        Value::Array(a) => join_spec(a@.filter_map(|x: Value| name_of(x)), ";"@),
        _ => Seq::empty(),
    }
}

/// A name of a list, normalised.
pub open spec fn name_of(x: Value) -> Option<Seq<char>> {
    match x {
        Value::Str(t) => Some(normalize_spec(t@)),
        _ => None,
    }
}

/// The normalised names of field `k`, or nothing.
pub open spec fn field_key(fields: StrMap<Value>, k: Seq<char>) -> Seq<char> {
    match fval(fields, k) {
        Some(v) => names_key(v),
        None => Seq::empty(),
    }
}

/// The keys of an author field, in the order they are tried (as for the
/// authors of a catalogue candidate).
pub open spec fn author_keys() -> Seq<Seq<char>> {
    seq!["scenariste"@, "auteur"@, "artiste"@, "realisateur"@]
}

/// The keys of a publisher field, in the order they are tried.
pub open spec fn publisher_keys() -> Seq<Seq<char>> {
    seq!["editeur"@, "label"@]
}

/// The normalised names of the schema's field for a role (`target_spec`
/// of its keys), or nothing.
pub open spec fn role_key(fs: Seq<FieldDef>, fields: StrMap<Value>, wanted: Seq<Seq<char>>) -> Seq<char> {
    match target_spec(fs, wanted) {
        Some(f) => field_key(fields, f.key@),
        None => Seq::empty(),
    }
}

/// Title, author and publisher, normalised: `titre|auteur|editeur`, the
/// key that tells a duplicate object without an EAN. The author and the
/// publisher are the schema's fields for those roles.
pub open spec fn dedup_triple(fs: Seq<FieldDef>, fields: StrMap<Value>) -> Seq<char> {
    let titre = match title_field_spec(fs) {
        Some(f) => match fval(fields, f.key@) {
            Some(Value::Str(t)) => normalize_spec(t@),
            _ => Seq::empty(),
        },
        None => Seq::empty(),
    };
    titre + seq!['|'] + role_key(fs, fields, author_keys()) + seq!['|'] + role_key(fs, fields, publisher_keys())
}

/// The normalised names of the schema's field for a role.
fn role_text(schema: &Schema, fields: &StrMap<Value>, wanted: &[&str]) -> (r: String)
    requires
        fields.wf(),
    ensures
        r@ == role_key(schema.fields@, *fields, strs(wanted@)),
{
    match find_target(schema, wanted) {
        Some(i) => match fields.get(schema.fields[i].key.as_str()) {
            Some(v) => names_text(v),
            None => String::new(),
        },
        None => String::new(),
    }
}

/// The normalised names of a value (see `names_key`).
fn names_text(v: &Value) -> (r: String)
    ensures
        r@ == names_key(*v),
{
    match v {
        Value::Str(t) => normalize(t.as_str()),
        Value::Array(a) => {
            let ghost g = |x: Value| name_of(x);
            let mut parts: Vec<String> = Vec::new();
            let mut i: usize = 0;
            while i < a.len()
                invariant
                    i <= a@.len(),
                    g == (|x: Value| name_of(x)),
                    views(parts@) == a@.take(i as int).filter_map(g),
                decreases a@.len() - i,
            {
                proof {
                    a@.lemma_filter_map_take_succ(g, i as int);
                }
                match &a[i] {
                    Value::Str(t) => {
                        let n = normalize(t.as_str());
                        let ghost before = parts@;
                        parts.push(n);
                        assert(views(parts@) =~= views(before) + seq![n@]);
                    },
                    _ => {},
                }
                i = i + 1;
            }
            assert(a@.take(a@.len() as int) =~= a@);
            crate::text::join(parts.as_slice(), ";")
        },
        _ => String::new(),
    }
}

/// The position of the first series field.
pub fn series_field(schema: &Schema) -> (r: Option<usize>)
    ensures
        match r {
            Some(i) => i < schema.fields@.len() && series_field_spec(schema.fields@) == Some(schema.fields@[i as int]),
            None => series_field_spec(schema.fields@).is_none(),
        },
{
    let ghost p = |f: FieldDef| f.field_type == FieldType::SeriesRef;
    let mut i: usize = 0;
    while i < schema.fields.len()
        invariant
            i <= schema.fields@.len(),
            p == (|f: FieldDef| f.field_type == FieldType::SeriesRef),
            forall|j: int| 0 <= j < i ==> !p(#[trigger] schema.fields@[j]),
        decreases schema.fields@.len() - i,
    {
        if schema.fields[i].field_type == FieldType::SeriesRef {
            proof {
                lemma_first_some(schema.fields@, p, i as int);
            }
            return Some(i);
        }
        i = i + 1;
    }
    proof {
        lemma_first_none(schema.fields@, p);
    }
    None
}

/// The keys that detect a duplicate object: its EAN if it has one, and
/// its normalised title, author and publisher.
pub fn dedup_keys(schema: &Schema, fields: &StrMap<Value>) -> (r: (Option<String>, String))
    requires
        fields.wf(),
    ensures
        crate::hydrate::opt_view(r.0) == dedup_ean(*fields),
        r.1@ == dedup_triple(schema.fields@, *fields),
{
    let v = match fields.get("ean") {
        Some(x) => Some(x),
        None => fields.get("isbn"),
    };
    let ean = match v {
        Some(Value::Str(t)) => {
            let c = remove_chars(&chars_of(t.as_str()), ' ', '-');
            if c.len() > 0 { Some(string_of(&c)) } else { None }
        },
        _ => None,
    };
    let titre = match schema.title_field() {
        Some(f) => match fields.get(f.key.as_str()) {
            Some(Value::Str(t)) => normalize(t.as_str()),
            _ => String::new(),
        },
        None => String::new(),
    };
    let wa: &[&str] = &["scenariste", "auteur", "artiste", "realisateur"];
    assert(strs(wa@) =~= author_keys());
    let wp: &[&str] = &["editeur", "label"];
    assert(strs(wp@) =~= publisher_keys());
    let auteur = role_text(schema, fields, wa);
    let editeur = role_text(schema, fields, wp);
    let mut triple = titre;
    push_char(&mut triple, '|');
    triple.append(auteur.as_str());
    push_char(&mut triple, '|');
    triple.append(editeur.as_str());
    (ean, triple)
}

// ---------------------------------------------------------------------------
// Columns and cells
// ---------------------------------------------------------------------------

/// The position of column `name`: the last header of that name.
pub open spec fn column_of(headers: Seq<Seq<char>>, name: Seq<char>) -> Option<int> {
    if exists|i: int| 0 <= i < headers.len() && headers[i] == name {
        Some(choose|i: int| 0 <= i < headers.len() && headers[i] == name && forall|j: int| i < j < headers.len() ==> headers[j] != name)
    } else {
        None
    }
}

/// The position of a column among the headers (the last of that name).
pub fn column_index(headers: &Vec<String>, name: &str) -> (r: Option<usize>)
    ensures
        opt_int(r) == column_of(views(headers@), name@),
        match r {
            Some(i) => i < headers@.len(),
            None => true,
        },
{
    let ghost hv = views(headers@);
    let mut i = headers.len();
    while i > 0
        invariant
            i <= headers@.len(),
            hv == views(headers@),
            forall|j: int| i <= j < headers@.len() ==> hv[j] != name@,
        decreases i,
    {
        i = i - 1;
        if str_eq(headers[i].as_str(), name) {
            proof {
                assert(hv[i as int] == name@);
                let c = choose|c: int| 0 <= c < hv.len() && hv[c] == name@ && forall|j: int| c < j < hv.len() ==> hv[j] != name@;
                if c < i {
                    assert(hv[i as int] != name@);
                }
                if c > i {
                    assert(hv[c] != name@);
                }
            }
            return Some(i);
        }
    }
    None
}

/// The first mapping (not ignored) whose column the CSV lacks.
pub open spec fn missing_column(headers: Seq<Seq<char>>, mappings: Seq<ColumnMapping>) -> Option<int> {
    first(mappings, |m: ColumnMapping| m.target@ != "__ignore"@ && column_of(headers, m.column@).is_none())
}

/// Checks that every mapped column exists in the CSV.
pub fn check_mappings(headers: &Vec<String>, mappings: &[ColumnMapping]) -> (r: Result<(), String>)
    ensures
        match missing_column(views(headers@), mappings@) {
            Some(i) => r matches Err(e) && e@ == "colonne « "@ + mappings@[i].column@ + " » absente du CSV"@,
            None => r is Ok,
        },
{
    let ghost p = |m: ColumnMapping| m.target@ != "__ignore"@ && column_of(views(headers@), m.column@).is_none();
    let mut i: usize = 0;
    while i < mappings.len()
        invariant
            i <= mappings@.len(),
            p == (|m: ColumnMapping| m.target@ != "__ignore"@ && column_of(views(headers@), m.column@).is_none()),
            forall|j: int| 0 <= j < i ==> !p(#[trigger] mappings@[j]),
        decreases mappings@.len() - i,
    {
        let m = &mappings[i];
        if !str_eq(m.target.as_str(), TARGET_IGNORE) && column_index(headers, m.column.as_str()).is_none() {
            proof {
                lemma_first_some(mappings@, p, i as int);
            }
            return Err(crate::hydrate::concat3("colonne « ", m.column.as_str(), " » absente du CSV"));
        }
        i = i + 1;
    }
    proof {
        lemma_first_none(mappings@, p);
    }
    Ok(())
}

/// The cell of a record at a position, trimmed; a missing cell is empty.
pub open spec fn cell_at(record: Seq<Seq<char>>, i: int) -> Seq<char> {
    if 0 <= i < record.len() {
        trim_spec(record[i])
    } else {
        Seq::empty()
    }
}

/// The value a mapping reads in a cell: nothing for an empty cell or
/// `<N/A>`; transformed by `nom_prenom` when asked.
pub open spec fn cell_value(raw: Seq<char>, transform: Option<Seq<char>>) -> Option<Seq<char>> {
    if raw.len() == 0 || raw == "<N/A>"@ {
        None
    } else if transform == Some("nom_prenom"@) {
        Some(nom_prenom_spec(raw))
    } else {
        Some(raw)
    }
}

pub open spec fn opt_string(o: Option<String>) -> Option<Seq<char>> {
    crate::hydrate::opt_view(o)
}

/// The value that mapping `m` reads from a record whose column is at `col`.
pub fn read_cell(record: &Vec<String>, col: usize, m: &ColumnMapping) -> (r: Option<String>)
    ensures
        opt_string(r) == cell_value(cell_at(views(record@), col as int), opt_string(m.transform)),
{
    let raw: &str = if col < record.len() { trim(record[col].as_str()) } else { "" };
    proof {
        reveal_strlit("");
        if col < record@.len() {
            assert(views(record@)[col as int] == record@[col as int]@);
        }
    }
    if raw.is_empty() || str_eq(raw, "<N/A>") {
        return None;
    }
    let is_np = match &m.transform {
        Some(t) => str_eq(t.as_str(), "nom_prenom"),
        None => false,
    };
    if is_np {
        Some(nom_prenom(raw))
    } else {
        Some(owned(raw))
    }
}

/// Whether a text reads as "yes".
pub open spec fn truthy(value: Seq<char>) -> bool {
    let n = normalize_spec(value);
    n == "oui"@ || n == "true"@ || n == "1"@ || n == "x"@ || n == "vrai"@
}

pub fn is_truthy(value: &str) -> (r: bool)
    ensures
        r == truthy(value@),
{
    let n = normalize(value);
    let t = n.as_str();
    str_eq(t, "oui") || str_eq(t, "true") || str_eq(t, "1") || str_eq(t, "x") || str_eq(t, "vrai")
}

/// The value of a cell for a field that is not a select: a one-element
/// list for a list field, a boolean for a boolean field, the text itself
/// otherwise (numbers are read by the caller).
pub open spec fn plain_value(ft: FieldType, value: Seq<char>) -> ValueV {
    if ft == FieldType::TextList || ft == FieldType::Tags {
        ValueV::Array(seq![ValueV::Str(value)])
    } else if ft == FieldType::Boolean {
        ValueV::Bool(truthy(value))
    } else {
        ValueV::Str(value)
    }
}

pub fn plain_cell(ft: FieldType, value: &str) -> (r: Value)
    ensures
        vview(r) == plain_value(ft, value@),
{
    match ft {
        FieldType::TextList | FieldType::Tags => {
            let mut a: Vec<Value> = Vec::new();
            let v = str_value(value);
            a.push(v);
            proof {
                crate::value::lemma_vviews_push(Seq::empty(), v);
                assert(Seq::<Value>::empty().push(v) =~= a@);
            }
            Value::Array(a)
        },
        FieldType::Boolean => Value::Bool(is_truthy(value)),
        _ => str_value(value),
    }
}

/// The first option of a select field equal to `value` once both are
/// normalised.
pub open spec fn canonical_option(opts: Seq<SelectOption>, value: Seq<char>) -> Option<int> {
    first(opts, |o: SelectOption| normalize_spec(o.value@) == normalize_spec(value))
}

pub fn find_canonical(def: &FieldDef, value: &str) -> (r: Option<usize>)
    ensures
        opt_int(r) == canonical_option(def.options@, value@),
{
    let ghost p = |o: SelectOption| normalize_spec(o.value@) == normalize_spec(value@);
    let nv = normalize(value);
    let mut i: usize = 0;
    while i < def.options.len()
        invariant
            i <= def.options@.len(),
            nv@ == normalize_spec(value@),
            p == (|o: SelectOption| normalize_spec(o.value@) == normalize_spec(value@)),
            forall|j: int| 0 <= j < i ==> !p(#[trigger] def.options@[j]),
        decreases def.options@.len() - i,
    {
        let no = normalize(def.options[i].value.as_str());
        if str_eq(no.as_str(), nv.as_str()) {
            proof {
                lemma_first_some(def.options@, p, i as int);
            }
            return Some(i);
        }
        i = i + 1;
    }
    proof {
        lemma_first_none(def.options@, p);
    }
    None
}

// ---------------------------------------------------------------------------
// Mapping a record onto the fields
// ---------------------------------------------------------------------------

/// `new` is `old` where select fields may have gained options: same
/// fields, same keys and types, every old option kept in place, and codes
/// that were pairwise different still are.
pub open spec fn schema_grows(old: Seq<FieldDef>, new: Seq<FieldDef>) -> bool {
    &&& new.len() == old.len()
    &&& forall|i: int| 0 <= i < old.len() ==> {
        &&& (#[trigger] new[i]).key == old[i].key
        &&& new[i].label == old[i].label
        &&& new[i].field_type == old[i].field_type
        &&& new[i].required == old[i].required
        &&& new[i].max == old[i].max
        &&& old[i].options@.len() <= new[i].options@.len()
        &&& new[i].options@.take(old[i].options@.len() as int) == old[i].options@
        &&& (distinct_codes(old[i].options@) ==> distinct_codes(new[i].options@))
    }
}

pub proof fn lemma_schema_grows_trans(a: Seq<FieldDef>, b: Seq<FieldDef>, c: Seq<FieldDef>)
    requires
        schema_grows(a, b),
        schema_grows(b, c),
    ensures
        schema_grows(a, c),
{
    assert forall|i: int| 0 <= i < a.len() implies c[i].options@.take(a[i].options@.len() as int) == a[i].options@ by {
        assert(b[i].options@.take(a[i].options@.len() as int) == a[i].options@);
        assert(c[i].options@.take(b[i].options@.len() as int) == b[i].options@);
        assert(c[i].options@.take(a[i].options@.len() as int) =~= c[i].options@.take(b[i].options@.len() as int).take(a[i].options@.len() as int));
    }
}

pub proof fn lemma_schema_grows_refl(a: Seq<FieldDef>)
    ensures
        schema_grows(a, a),
{
    assert forall|i: int| 0 <= i < a.len() implies a[i].options@.take(a[i].options@.len() as int) == a[i].options@ by {
        assert(a[i].options@.take(a[i].options@.len() as int) =~= a[i].options@);
    }
}

/// Every key of `fields` is the key of a field of the schema.
pub open spec fn keys_in_schema(fields: StrMap<Value>, fs: Seq<FieldDef>) -> bool {
    forall|k: Seq<char>| #[trigger] fields.view().dom().contains(k) ==> field_spec(fs, k) is Some
}

/// The position of the field with key `key`.
pub fn field_index(schema: &Schema, key: &str) -> (r: Option<usize>)
    ensures
        match r {
            Some(i) => i < schema.fields@.len() && first(schema.fields@, key_is(key@)) == Some(i as int)
                && schema.fields@[i as int].key@ == key@ && field_spec(schema.fields@, key@) == Some(schema.fields@[i as int]),
            None => field_spec(schema.fields@, key@).is_none(),
        },
{
    let mut i: usize = 0;
    while i < schema.fields.len()
        invariant
            i <= schema.fields@.len(),
            forall|j: int| 0 <= j < i ==> !(key_is(key@))(#[trigger] schema.fields@[j]),
        decreases schema.fields@.len() - i,
    {
        if str_eq(schema.fields[i].key.as_str(), key) {
            proof {
                lemma_first_some(schema.fields@, key_is(key@), i as int);
            }
            return Some(i);
        }
        i = i + 1;
    }
    proof {
        lemma_first_none(schema.fields@, key_is(key@));
    }
    None
}

/// `field_spec` only depends on the keys of the fields.
pub proof fn lemma_field_spec_grows(a: Seq<FieldDef>, b: Seq<FieldDef>, k: Seq<char>)
    requires
        schema_grows(a, b),
    ensures
        (field_spec(a, k) is Some) == (field_spec(b, k) is Some),
{
    if field_spec(a, k) is Some {
        let i = first(a, key_is(k)).unwrap();
        assert(is_first(a, key_is(k), i));
        assert(b[i].key == a[i].key);
        assert((key_is(k))(b[i]));
        if first(b, key_is(k)) is None {
            assert(is_first(b, key_is(k), i)) by {
                assert forall|j: int| 0 <= j < i implies !(key_is(k))(#[trigger] b[j]) by {
                    assert(b[j].key == a[j].key);
                }
            }
        }
    }
    if field_spec(b, k) is Some {
        let i = first(b, key_is(k)).unwrap();
        assert(is_first(b, key_is(k), i));
        assert(b[i].key == a[i].key);
        if first(a, key_is(k)) is None {
            assert(is_first(a, key_is(k), i)) by {
                assert forall|j: int| 0 <= j < i implies !(key_is(k))(#[trigger] a[j]) by {
                    assert(b[j].key == a[j].key);
                }
            }
        }
    }
}

/// The fields read from one record, with the series name and volume.
#[derive(Debug)]
pub struct RowData {
    pub fields: StrMap<Value>,
    pub serie_name: Option<String>,
    pub serie_tome: Option<i64>,
}

/// `ligne N : `
pub fn line_prefix(line: u128) -> (r: String)
    ensures
        r@ == "ligne "@ + crate::text::decimal(line as nat) + " : "@,
{
    let n = format_u128(line);
    crate::hydrate::concat3("ligne ", n.as_str(), " : ")
}

/// Adds an option for an unknown value of select field `j`, with a code
/// that no option of the field uses.
fn add_select_option(schema: &mut Schema, j: usize, value: &str)
    requires
        j < old(schema).fields@.len(),
    ensures
        final(schema).name == old(schema).name,
        final(schema).id_prefix == old(schema).id_prefix,
        final(schema).source == old(schema).source,
        final(schema).cote == old(schema).cote,
        schema_grows(old(schema).fields@, final(schema).fields@),
        final(schema).fields@[j as int].options@.len() == old(schema).fields@[j as int].options@.len() + 1,
        final(schema).fields@[j as int].options@.last().value@ == value@,
        option_added(old(schema).fields@[j as int], final(schema).fields@[j as int], value@),
        forall|q: int| 0 <= q < old(schema).fields@.len() && q != j ==> final(schema).fields@[q] == old(schema).fields@[q],
{
    let ghost before = schema.fields@;
    let mut def = schema.fields.remove(j);
    let ghost old_def = def;
    let code = add_option_with_unique_code(&mut def, value);
    proof {
        if distinct_codes(old_def.options@) {
            law_added_code_keeps_codes_distinct(old_def.options@, def.options@.last());
            assert(def.options@ =~= old_def.options@.push(def.options@.last()));
        }
    }
    schema.fields.insert(j, def);
    proof {
        assert forall|q: int| 0 <= q < before.len() && q != j implies schema.fields@[q] == before[q] by {
            if q < j {
                assert(schema.fields@[q] == before.remove(j as int)[q]);
            } else {
                assert(schema.fields@[q] == before.remove(j as int)[q - 1]);
            }
        }
        assert(schema.fields@[j as int] == def);
        assert(def.options@.take(old_def.options@.len() as int) =~= old_def.options@);
        assert forall|i: int| 0 <= i < before.len() implies schema.fields@[i].options@.take(before[i].options@.len() as int) == before[i].options@ by {
            if i != j {
                assert(schema.fields@[i] == before[i]);
                assert(before[i].options@.take(before[i].options@.len() as int) =~= before[i].options@);
            }
        }
    }
}

// ---------------------------------------------------------------------------
// What a record gives
// ---------------------------------------------------------------------------

pub open spec fn opt_vview(r: Option<Value>) -> Option<ValueV> {
    match r {
        Some(v) => Some(vview(v)),
        None => None,
    }
}

/// `numf` tells, by the text, what the number reader returns.
pub open spec fn reads_numbers<F: Fn(&str) -> Option<Value>>(number: F, numf: spec_fn(Seq<char>) -> Option<ValueV>) -> bool {
    forall|s: &str, r: Option<Value>| #[trigger] number.ensures((s,), r) ==> opt_vview(r) == numf(s@)
}

/// The targets that are not schema fields.
pub open spec fn is_special(t: Seq<char>) -> bool {
    t == "__ignore"@ || t == "__serie"@ || t == "__tome"@
}

pub open spec fn is_number_type(ft: FieldType) -> bool {
    ft == FieldType::Number || ft == FieldType::Rating
}

/// What mapping `i` reads in the record.
pub open spec fn read_at(rec: Seq<Seq<char>>, cols: Seq<usize>, ms: Seq<ColumnMapping>, i: int) -> Option<Seq<char>> {
    cell_value(cell_at(rec, cols[i] as int), opt_string(ms[i].transform))
}

/// Mapping `i` can give field `k` its value: it targets `k`, a field of the
/// schema, its cell is not empty, and a number cell reads as a number.
pub open spec fn gives(
    fs: Seq<FieldDef>,
    rec: Seq<Seq<char>>,
    cols: Seq<usize>,
    ms: Seq<ColumnMapping>,
    numf: spec_fn(Seq<char>) -> Option<ValueV>,
    i: int,
    k: Seq<char>,
) -> bool {
    &&& 0 <= i < ms.len()
    &&& ms[i].target@ == k
    &&& !is_special(k)
    &&& field_spec(fs, k) is Some
    &&& read_at(rec, cols, ms, i) is Some
    &&& (is_number_type(field_spec(fs, k).unwrap().field_type) ==> numf(read_at(rec, cols, ms, i).unwrap()) is Some)
}

/// The first of the first `n` mappings that gives field `k` its value.
pub open spec fn giver(
    fs: Seq<FieldDef>,
    rec: Seq<Seq<char>>,
    cols: Seq<usize>,
    ms: Seq<ColumnMapping>,
    numf: spec_fn(Seq<char>) -> Option<ValueV>,
    n: int,
    k: Seq<char>,
) -> Option<int> {
    first(Seq::new(n as nat, |i: int| i), |i: int| gives(fs, rec, cols, ms, numf, i, k))
}

/// The value that mapping `i` gives field `k`: a number as read, a select
/// value as its option when one matches (else as it is), the cell's plain
/// value otherwise.
pub open spec fn given_value(
    fs: Seq<FieldDef>,
    rec: Seq<Seq<char>>,
    cols: Seq<usize>,
    ms: Seq<ColumnMapping>,
    numf: spec_fn(Seq<char>) -> Option<ValueV>,
    i: int,
    k: Seq<char>,
) -> ValueV {
    let f = field_spec(fs, k).unwrap();
    let v = read_at(rec, cols, ms, i).unwrap();
    if is_number_type(f.field_type) {
        numf(v).unwrap()
    } else if f.field_type == FieldType::Select {
        match canonical_option(f.options@, v) {
            Some(o) => ValueV::Str(f.options@[o].value@),
            None => ValueV::Str(v),
        }
    } else {
        plain_value(f.field_type, v)
    }
}

/// The series name that the first `n` mappings read (the last one wins).
pub open spec fn serie_upto(rec: Seq<Seq<char>>, cols: Seq<usize>, ms: Seq<ColumnMapping>, n: nat) -> Option<Seq<char>>
    decreases n,
{
    if n == 0 {
        None
    } else {
        let i = n - 1;
        if ms[i].target@ == "__serie"@ && read_at(rec, cols, ms, i) is Some {
            read_at(rec, cols, ms, i)
        } else {
            serie_upto(rec, cols, ms, (n - 1) as nat)
        }
    }
}

/// The volume that the first `n` mappings read (the last readable one).
pub open spec fn tome_upto(rec: Seq<Seq<char>>, cols: Seq<usize>, ms: Seq<ColumnMapping>, n: nat) -> Option<i64>
    decreases n,
{
    if n == 0 {
        None
    } else {
        let i = n - 1;
        if ms[i].target@ == "__tome"@ && read_at(rec, cols, ms, i) is Some && parse_i64_spec(
            read_at(rec, cols, ms, i).unwrap(),
        ) is Some {
            parse_i64_spec(read_at(rec, cols, ms, i).unwrap())
        } else {
            tome_upto(rec, cols, ms, (n - 1) as nat)
        }
    }
}

/// The messages of the first `n` mappings: an unreadable volume, an
/// unreadable number for a field that has no value yet.
pub open spec fn errors_upto(
    line: Seq<char>,
    fs: Seq<FieldDef>,
    rec: Seq<Seq<char>>,
    cols: Seq<usize>,
    ms: Seq<ColumnMapping>,
    numf: spec_fn(Seq<char>) -> Option<ValueV>,
    n: nat,
) -> Seq<Seq<char>>
    decreases n,
{
    if n == 0 {
        Seq::empty()
    } else {
        let i = n - 1;
        let prev = errors_upto(line, fs, rec, cols, ms, numf, (n - 1) as nat);
        let t = ms[i].target@;
        match read_at(rec, cols, ms, i) {
            None => prev,
            Some(v) => if t == "__tome"@ && parse_i64_spec(v) is None {
                prev.push(line + "tome « "@ + v + " » non numérique, ignoré"@)
            } else if !is_special(t) && field_spec(fs, t) is Some && is_number_type(field_spec(fs, t).unwrap().field_type)
                && numf(v) is None && giver(fs, rec, cols, ms, numf, i, t) is None {
                prev.push(line + "« "@ + v + " » non numérique pour "@ + t + ", ignoré"@)
            } else {
                prev
            },
        }
    }
}

/// Mapping `i` gives a select field a value that no option matches.
pub open spec fn adds_option(
    fs: Seq<FieldDef>,
    rec: Seq<Seq<char>>,
    cols: Seq<usize>,
    ms: Seq<ColumnMapping>,
    numf: spec_fn(Seq<char>) -> Option<ValueV>,
    i: int,
) -> bool {
    let t = ms[i].target@;
    &&& gives(fs, rec, cols, ms, numf, i, t)
    &&& giver(fs, rec, cols, ms, numf, i, t) is None
    &&& field_spec(fs, t).unwrap().field_type == FieldType::Select
    &&& canonical_option(field_spec(fs, t).unwrap().options@, read_at(rec, cols, ms, i).unwrap()) is None
}

/// The new select values of the first `n` mappings, in order.
pub open spec fn genres_upto(
    fs: Seq<FieldDef>,
    rec: Seq<Seq<char>>,
    cols: Seq<usize>,
    ms: Seq<ColumnMapping>,
    numf: spec_fn(Seq<char>) -> Option<ValueV>,
    n: nat,
) -> Seq<Seq<char>>
    decreases n,
{
    if n == 0 {
        Seq::empty()
    } else {
        let i = n - 1;
        let prev = genres_upto(fs, rec, cols, ms, numf, (n - 1) as nat);
        if adds_option(fs, rec, cols, ms, numf, i) {
            prev.push(read_at(rec, cols, ms, i).unwrap())
        } else {
            prev
        }
    }
}

/// The value appended to the options of field `q` by the first `n`
/// mappings, if any.
pub open spec fn added_upto(
    fs: Seq<FieldDef>,
    rec: Seq<Seq<char>>,
    cols: Seq<usize>,
    ms: Seq<ColumnMapping>,
    numf: spec_fn(Seq<char>) -> Option<ValueV>,
    n: int,
    q: int,
) -> Option<Seq<char>> {
    let k = fs[q].key@;
    match giver(fs, rec, cols, ms, numf, n, k) {
        Some(i) => if first(fs, key_is(k)) == Some(q) && adds_option(fs, rec, cols, ms, numf, i) {
            read_at(rec, cols, ms, i)
        } else {
            None
        },
        None => None,
    }
}

/// `b` is `a` with one more option of value `v`, whose code is the first
/// unused one derived from `v`.
pub open spec fn option_added(a: FieldDef, b: FieldDef, v: Seq<char>) -> bool {
    &&& b.key == a.key
    &&& b.label == a.label
    &&& b.field_type == a.field_type
    &&& b.required == a.required
    &&& b.max == a.max
    &&& b.options@.len() == a.options@.len() + 1
    &&& b.options@.drop_last() == a.options@
    &&& b.options@.last().value@ == v
    &&& b.options@.last().code matches Some(c) && c@ == unique_code_spec(codes(a.options@), derive_code_spec(v))
}

/// The fields of `new` are those of `old`, where the first `n` mappings
/// appended options.
pub open spec fn options_added(
    old: Seq<FieldDef>,
    new: Seq<FieldDef>,
    rec: Seq<Seq<char>>,
    cols: Seq<usize>,
    ms: Seq<ColumnMapping>,
    numf: spec_fn(Seq<char>) -> Option<ValueV>,
    n: int,
) -> bool {
    &&& new.len() == old.len()
    &&& forall|q: int| 0 <= q < old.len() ==> match #[trigger] added_upto(old, rec, cols, ms, numf, n, q) {
        Some(v) => option_added(old[q], new[q], v),
        None => new[q] == old[q],
    }
}

/// The giver of the first `n + 1` mappings.
pub proof fn lemma_giver_step(
    fs: Seq<FieldDef>,
    rec: Seq<Seq<char>>,
    cols: Seq<usize>,
    ms: Seq<ColumnMapping>,
    numf: spec_fn(Seq<char>) -> Option<ValueV>,
    n: int,
    k: Seq<char>,
)
    requires
        0 <= n,
    ensures
        giver(fs, rec, cols, ms, numf, n + 1, k) == match giver(fs, rec, cols, ms, numf, n, k) {
            Some(i) => Some(i),
            None => if gives(fs, rec, cols, ms, numf, n, k) { Some(n) } else { None },
        },
        giver(fs, rec, cols, ms, numf, n, k) matches Some(i) ==> 0 <= i < n && gives(fs, rec, cols, ms, numf, i, k),
        giver(fs, rec, cols, ms, numf, n, k) is None ==> forall|j: int| 0 <= j < n ==> !gives(fs, rec, cols, ms, numf, j, k),
{
    let a = Seq::new(n as nat, |i: int| i);
    let b = Seq::new((n + 1) as nat, |i: int| i);
    let p = |i: int| gives(fs, rec, cols, ms, numf, i, k);
    match first(a, p) {
        Some(i) => {
            assert(is_first(a, p, i));
            assert(is_first(b, p, i)) by {
                assert forall|j: int| 0 <= j < i implies !p(#[trigger] b[j]) by {
                    assert(a[j] == j && b[j] == j);
                    assert(!p(a[j]));
                }
            }
            lemma_first_some(b, p, i);
        },
        None => {
            assert forall|j: int| 0 <= j < n implies !gives(fs, rec, cols, ms, numf, j, k) by {
                if gives(fs, rec, cols, ms, numf, j, k) {
                    assert(a[j] == j);
                    crate::text::lemma_first_exists(a, p, j);
                }
            }
            if gives(fs, rec, cols, ms, numf, n, k) {
                assert(is_first(b, p, n)) by {
                    assert forall|j: int| 0 <= j < n implies !p(#[trigger] b[j]) by {
                        assert(b[j] == j);
                    }
                }
                lemma_first_some(b, p, n);
            } else {
                assert forall|j: int| 0 <= j < b.len() implies !p(#[trigger] b[j]) by {
                    assert(b[j] == j);
                }
                lemma_first_none(b, p);
            }
        },
    }
}

/// What holds of the record read so far: the fields, series name and
/// volume, messages, new select values and options of the first `n`
/// mappings.
pub open spec fn row_inv(
    fs: Seq<FieldDef>,
    cur: Seq<FieldDef>,
    fv: Map<Seq<char>, ValueV>,
    serie: Option<Seq<char>>,
    tome: Option<i64>,
    pre_e: Seq<Seq<char>>,
    errs: Seq<Seq<char>>,
    pre_g: Seq<Seq<char>>,
    gens: Seq<Seq<char>>,
    dirty0: bool,
    dirty: bool,
    line: Seq<char>,
    rec: Seq<Seq<char>>,
    cs: Seq<usize>,
    ms: Seq<ColumnMapping>,
    numf: spec_fn(Seq<char>) -> Option<ValueV>,
    n: int,
) -> bool {
    &&& forall|k: Seq<char>|
        #![trigger fv.dom().contains(k)]
        #![trigger giver(fs, rec, cs, ms, numf, n, k)]
        fv.dom().contains(k) <==> giver(fs, rec, cs, ms, numf, n, k) is Some
    &&& forall|k: Seq<char>| #[trigger] giver(fs, rec, cs, ms, numf, n, k) matches Some(i) ==> fv[k] == given_value(
        fs,
        rec,
        cs,
        ms,
        numf,
        i,
        k,
    )
    &&& serie == serie_upto(rec, cs, ms, n as nat)
    &&& tome == tome_upto(rec, cs, ms, n as nat)
    &&& errs == pre_e + errors_upto(line, fs, rec, cs, ms, numf, n as nat)
    &&& gens == pre_g + genres_upto(fs, rec, cs, ms, numf, n as nat)
    &&& options_added(fs, cur, rec, cs, ms, numf, n)
    &&& dirty == (dirty0 || genres_upto(fs, rec, cs, ms, numf, n as nat).len() > 0)
}

/// The givers of every field after one more mapping.
pub proof fn lemma_givers_step(
    fs: Seq<FieldDef>,
    rec: Seq<Seq<char>>,
    cs: Seq<usize>,
    ms: Seq<ColumnMapping>,
    numf: spec_fn(Seq<char>) -> Option<ValueV>,
    n: int,
)
    requires
        0 <= n,
    ensures
        forall|k: Seq<char>| #[trigger] giver(fs, rec, cs, ms, numf, n + 1, k) == match giver(fs, rec, cs, ms, numf, n, k) {
            Some(i) => Some(i),
            None => if gives(fs, rec, cs, ms, numf, n, k) { Some(n) } else { None },
        },
        forall|k: Seq<char>| #[trigger] giver(fs, rec, cs, ms, numf, n, k) matches Some(i) ==> 0 <= i < n
            && gives(fs, rec, cs, ms, numf, i, k),
{
    assert forall|k: Seq<char>| #[trigger] giver(fs, rec, cs, ms, numf, n + 1, k) == match giver(fs, rec, cs, ms, numf, n, k) {
        Some(i) => Some(i),
        None => if gives(fs, rec, cs, ms, numf, n, k) { Some(n) } else { None },
    } by {
        lemma_giver_step(fs, rec, cs, ms, numf, n, k);
    }
    assert forall|k: Seq<char>| #[trigger] giver(fs, rec, cs, ms, numf, n, k) matches Some(i) ==> 0 <= i < n
        && gives(fs, rec, cs, ms, numf, i, k) by {
        lemma_giver_step(fs, rec, cs, ms, numf, n, k);
    }
}

/// A mapping that gives no field a value and adds no option leaves the
/// fields and the options as they are.
pub proof fn lemma_row_quiet(
    fs: Seq<FieldDef>,
    cur: Seq<FieldDef>,
    fv: Map<Seq<char>, ValueV>,
    rec: Seq<Seq<char>>,
    cs: Seq<usize>,
    ms: Seq<ColumnMapping>,
    numf: spec_fn(Seq<char>) -> Option<ValueV>,
    n: int,
)
    requires
        0 <= n < ms.len(),
        !gives(fs, rec, cs, ms, numf, n, ms[n].target@),
        forall|k: Seq<char>|
            #![trigger fv.dom().contains(k)]
            #![trigger giver(fs, rec, cs, ms, numf, n, k)]
            fv.dom().contains(k) <==> giver(fs, rec, cs, ms, numf, n, k) is Some,
        forall|k: Seq<char>| #[trigger] giver(fs, rec, cs, ms, numf, n, k) matches Some(i) ==> fv[k] == given_value(
            fs,
            rec,
            cs,
            ms,
            numf,
            i,
            k,
        ),
        options_added(fs, cur, rec, cs, ms, numf, n),
    ensures
        forall|k: Seq<char>|
            #![trigger fv.dom().contains(k)]
            #![trigger giver(fs, rec, cs, ms, numf, n + 1, k)]
            fv.dom().contains(k) <==> giver(fs, rec, cs, ms, numf, n + 1, k) is Some,
        forall|k: Seq<char>| #[trigger] giver(fs, rec, cs, ms, numf, n + 1, k) matches Some(i) ==> fv[k] == given_value(
            fs,
            rec,
            cs,
            ms,
            numf,
            i,
            k,
        ),
        options_added(fs, cur, rec, cs, ms, numf, n + 1),
        !adds_option(fs, rec, cs, ms, numf, n),
{
    lemma_givers_step(fs, rec, cs, ms, numf, n);
    assert forall|k: Seq<char>| giver(fs, rec, cs, ms, numf, n + 1, k) == giver(fs, rec, cs, ms, numf, n, k) by {
        if k != ms[n].target@ {
            assert(!gives(fs, rec, cs, ms, numf, n, k));
        }
    }
    assert forall|q: int| 0 <= q < fs.len() implies #[trigger] added_upto(fs, rec, cs, ms, numf, n + 1, q) == added_upto(
        fs,
        rec,
        cs,
        ms,
        numf,
        n,
        q,
    ) by {
        assert(giver(fs, rec, cs, ms, numf, n + 1, fs[q].key@) == giver(fs, rec, cs, ms, numf, n, fs[q].key@));
    }
}

/// Reads the mapped cells of one record into fields. The first non-empty
/// column of a field wins; a select value matches an option regardless of
/// accents and case, or is added to the schema with a code of its own; a
/// number is read by `number` (an unreadable number is reported and
/// skipped, as is an unreadable volume). For any `numf` that tells what
/// `number` returns, the result is the one that `gives`, `given_value`,
/// `serie_upto`, `tome_upto`, `errors_upto`, `genres_upto` and
/// `options_added` describe.
pub fn map_row<F: Fn(&str) -> Option<Value>>(
    schema: &mut Schema,
    cols: &Vec<usize>,
    record: &Vec<String>,
    mappings: &[ColumnMapping],
    line: &String,
    number: &F,
    report: &mut ImportReport,
    dirty: &mut bool,
) -> (r: RowData)
    requires
        cols@.len() == mappings@.len(),
        forall|s: &str| number.requires((s,)),
    ensures
        r.fields.wf(),
        keys_in_schema(r.fields, final(schema).fields@),
        final(schema).name == old(schema).name,
        final(schema).id_prefix == old(schema).id_prefix,
        final(schema).source == old(schema).source,
        final(schema).cote == old(schema).cote,
        schema_grows(old(schema).fields@, final(schema).fields@),
        final(report).total_rows == old(report).total_rows,
        final(report).imported == old(report).imported,
        final(report).skipped_duplicates == old(report).skipped_duplicates,
        final(report).series_created == old(report).series_created,
        old(report).errors@.len() <= final(report).errors@.len(),
        final(report).errors@.take(old(report).errors@.len() as int) == old(report).errors@,
        old(report).genres_added@.len() <= final(report).genres_added@.len(),
        final(report).genres_added@.take(old(report).genres_added@.len() as int) == old(report).genres_added@,
        *old(dirty) ==> *final(dirty),
        !*final(dirty) ==> final(schema).fields@ == old(schema).fields@,
        forall|numf: spec_fn(Seq<char>) -> Option<ValueV>| reads_numbers(*number, numf) ==> row_inv(
            old(schema).fields@,
            final(schema).fields@,
            fields_view(r.fields),
            opt_string(r.serie_name),
            r.serie_tome,
            views(old(report).errors@),
            views(final(report).errors@),
            views(old(report).genres_added@),
            views(final(report).genres_added@),
            *old(dirty),
            *final(dirty),
            line@,
            views(record@),
            cols@,
            mappings@,
            numf,
            mappings@.len() as int,
        ),
{
    let ghost s0 = *schema;
    let ghost fs = schema.fields@;
    let ghost e0 = report.errors@;
    let ghost g0 = report.genres_added@;
    let ghost rec = views(record@);
    let ghost cs = cols@;
    let ghost ms = mappings@;
    let ghost d0 = *dirty;
    let mut fields: StrMap<Value> = StrMap::new();
    let mut serie_name: Option<String> = None;
    let mut serie_tome: Option<i64> = None;
    proof {
        lemma_schema_grows_refl(schema.fields@);
        assert(report.errors@.take(e0.len() as int) =~= e0);
        assert(report.genres_added@.take(g0.len() as int) =~= g0);
        assert forall|numf: spec_fn(Seq<char>) -> Option<ValueV>| reads_numbers(*number, numf) implies row_inv(
            fs, schema.fields@, fields_view(fields), opt_string(serie_name), serie_tome, views(e0),
            views(report.errors@), views(g0), views(report.genres_added@), d0, *dirty, line@, rec, cs, ms, numf, 0,
        ) by {
            assert forall|k: Seq<char>| giver(fs, rec, cs, ms, numf, 0, k) is None by {
                lemma_first_none(Seq::new(0, |i: int| i), |i: int| gives(fs, rec, cs, ms, numf, i, k));
            }
            assert(views(e0) + errors_upto(line@, fs, rec, cs, ms, numf, 0) =~= views(report.errors@));
            assert(views(g0) + genres_upto(fs, rec, cs, ms, numf, 0) =~= views(report.genres_added@));
        }
    }
    let mut mi: usize = 0;
    while mi < mappings.len()
        invariant
            mi <= mappings@.len(),
            cols@.len() == mappings@.len(),
            forall|s: &str| number.requires((s,)),
            fields.wf(),
            keys_in_schema(fields, schema.fields@),
            schema.name == s0.name,
            schema.id_prefix == s0.id_prefix,
            schema.source == s0.source,
            schema.cote == s0.cote,
            schema_grows(s0.fields@, schema.fields@),
            report.total_rows == old(report).total_rows,
            report.imported == old(report).imported,
            report.skipped_duplicates == old(report).skipped_duplicates,
            report.series_created == old(report).series_created,
            e0 == old(report).errors@,
            g0 == old(report).genres_added@,
            e0.len() <= report.errors@.len(),
            report.errors@.take(e0.len() as int) == e0,
            g0.len() <= report.genres_added@.len(),
            report.genres_added@.take(g0.len() as int) == g0,
            s0 == *old(schema),
            fs == s0.fields@,
            rec == views(record@),
            cs == cols@,
            ms == mappings@,
            d0 == *old(dirty),
            *old(dirty) ==> *dirty,
            !*dirty ==> schema.fields@ == s0.fields@,
            forall|numf: spec_fn(Seq<char>) -> Option<ValueV>| reads_numbers(*number, numf) ==> row_inv(
                fs, schema.fields@, fields_view(fields), opt_string(serie_name), serie_tome, views(e0),
                views(report.errors@), views(g0), views(report.genres_added@), d0, *dirty, line@, rec, cs, ms, numf,
                mi as int,
            ),
        decreases mappings@.len() - mi,
    {
        let m = &mappings[mi];
        let ghost n = mi as int;
        let ghost t = m.target@;
        let ghost fv0 = fields_view(fields);
        let ghost sn0 = opt_string(serie_name);
        let ghost st0 = serie_tome;
        let ghost er0 = views(report.errors@);
        let ghost ge0 = views(report.genres_added@);
        let ghost cur0 = schema.fields@;
        let ghost dirty0 = *dirty;
        let ghost rd = read_at(rec, cs, ms, n);
        assert(ms[n] == *m);
        if str_eq(m.target.as_str(), TARGET_IGNORE) {
            proof {
                reveal_strlit("__ignore");
                reveal_strlit("__serie");
                reveal_strlit("__tome");
                assert("__ignore"@.len() == 8 && "__serie"@.len() == 7 && "__tome"@.len() == 6);
                assert forall|numf: spec_fn(Seq<char>) -> Option<ValueV>| reads_numbers(*number, numf) implies row_inv(
                    fs, schema.fields@, fields_view(fields), opt_string(serie_name), serie_tome, views(e0),
                    views(report.errors@), views(g0), views(report.genres_added@), d0, *dirty, line@, rec, cs, ms, numf,
                    n + 1,
                ) by {
                    assert(is_special(t));
                    lemma_row_quiet(fs, cur0, fv0, rec, cs, ms, numf, n);
                    assert(errors_upto(line@, fs, rec, cs, ms, numf, (n + 1) as nat) == errors_upto(line@, fs, rec, cs, ms, numf, n as nat));
                }
            }
        } else {
            let cell = read_cell(record, cols[mi], m);
            assert(opt_string(cell) == rd);
            match cell {
                None => {
                    proof {
                        assert forall|numf: spec_fn(Seq<char>) -> Option<ValueV>| reads_numbers(*number, numf) implies row_inv(
                            fs, schema.fields@, fields_view(fields), opt_string(serie_name), serie_tome, views(e0),
                            views(report.errors@), views(g0), views(report.genres_added@), d0, *dirty, line@, rec, cs, ms,
                            numf, n + 1,
                        ) by {
                            lemma_row_quiet(fs, cur0, fv0, rec, cs, ms, numf, n);
                        }
                    }
                },
                Some(value) => {
                    self::map_cell(
                        schema, &mut fields, &mut serie_name, &mut serie_tome, m, value, line, number, report, dirty,
                        Ghost(fs), Ghost(rec), Ghost(cs), Ghost(ms), Ghost(n), Ghost(e0), Ghost(g0), Ghost(d0),
                    );
                },
            }
        }
        mi = mi + 1;
    }
    RowData { fields, serie_name, serie_tome }
}

/// One mapping whose cell holds `value` (its target is not ignored).
fn map_cell<F: Fn(&str) -> Option<Value>>(
    schema: &mut Schema,
    fields: &mut StrMap<Value>,
    serie_name: &mut Option<String>,
    serie_tome: &mut Option<i64>,
    m: &ColumnMapping,
    value: String,
    line: &String,
    number: &F,
    report: &mut ImportReport,
    dirty: &mut bool,
    Ghost(fs): Ghost<Seq<FieldDef>>,
    Ghost(rec): Ghost<Seq<Seq<char>>>,
    Ghost(cs): Ghost<Seq<usize>>,
    Ghost(ms): Ghost<Seq<ColumnMapping>>,
    Ghost(n): Ghost<int>,
    Ghost(e0): Ghost<Seq<String>>,
    Ghost(g0): Ghost<Seq<String>>,
    Ghost(d0): Ghost<bool>,
)
    requires
        0 <= n < ms.len(),
        ms[n] == *m,
        m.target@ != "__ignore"@,
        read_at(rec, cs, ms, n) == Some(value@),
        forall|s: &str| number.requires((s,)),
        old(fields).wf(),
        keys_in_schema(*old(fields), old(schema).fields@),
        schema_grows(fs, old(schema).fields@),
        e0.len() <= old(report).errors@.len(),
        old(report).errors@.take(e0.len() as int) == e0,
        g0.len() <= old(report).genres_added@.len(),
        old(report).genres_added@.take(g0.len() as int) == g0,
        d0 ==> *old(dirty),
        !*old(dirty) ==> old(schema).fields@ == fs,
        forall|numf: spec_fn(Seq<char>) -> Option<ValueV>| reads_numbers(*number, numf) ==> row_inv(
            fs, old(schema).fields@, fields_view(*old(fields)), opt_string(*old(serie_name)), *old(serie_tome),
            views(e0), views(old(report).errors@), views(g0), views(old(report).genres_added@), d0, *old(dirty),
            line@, rec, cs, ms, numf, n,
        ),
    ensures
        final(fields).wf(),
        keys_in_schema(*final(fields), final(schema).fields@),
        final(schema).name == old(schema).name,
        final(schema).id_prefix == old(schema).id_prefix,
        final(schema).source == old(schema).source,
        final(schema).cote == old(schema).cote,
        schema_grows(fs, final(schema).fields@),
        final(report).total_rows == old(report).total_rows,
        final(report).imported == old(report).imported,
        final(report).skipped_duplicates == old(report).skipped_duplicates,
        final(report).series_created == old(report).series_created,
        e0.len() <= final(report).errors@.len(),
        final(report).errors@.take(e0.len() as int) == e0,
        g0.len() <= final(report).genres_added@.len(),
        final(report).genres_added@.take(g0.len() as int) == g0,
        d0 ==> *final(dirty),
        *old(dirty) ==> *final(dirty),
        !*final(dirty) ==> final(schema).fields@ == fs,
        forall|numf: spec_fn(Seq<char>) -> Option<ValueV>| reads_numbers(*number, numf) ==> row_inv(
            fs, final(schema).fields@, fields_view(*final(fields)), opt_string(*final(serie_name)), *final(serie_tome),
            views(e0), views(final(report).errors@), views(g0), views(final(report).genres_added@), d0,
            *final(dirty), line@, rec, cs, ms, numf, n + 1,
        ),
{
    let ghost t = m.target@;
    let ghost fv0 = fields_view(*fields);
    let ghost cur0 = schema.fields@;
    let ghost er0 = views(report.errors@);
    let ghost ge0 = views(report.genres_added@);
    proof {
        reveal_strlit("__ignore");
        reveal_strlit("__serie");
        reveal_strlit("__tome");
        assert("__ignore"@.len() == 8 && "__serie"@.len() == 7 && "__tome"@.len() == 6);
    }
    if str_eq(m.target.as_str(), TARGET_SERIE) {
        *serie_name = Some(value);
        proof {
            assert forall|numf: spec_fn(Seq<char>) -> Option<ValueV>| reads_numbers(*number, numf) implies row_inv(
                fs, schema.fields@, fields_view(*fields), opt_string(*serie_name), *serie_tome, views(e0),
                views(report.errors@), views(g0), views(report.genres_added@), d0, *dirty, line@, rec, cs, ms, numf,
                n + 1,
            ) by {
                assert(is_special(t));
                lemma_row_quiet(fs, cur0, fv0, rec, cs, ms, numf, n);
            }
        }
        return;
    }
    if str_eq(m.target.as_str(), TARGET_TOME) {
        match parse_i64(value.as_str()) {
            Some(tv) => {
                *serie_tome = Some(tv);
                proof {
                    assert forall|numf: spec_fn(Seq<char>) -> Option<ValueV>| reads_numbers(*number, numf) implies row_inv(
                        fs, schema.fields@, fields_view(*fields), opt_string(*serie_name), *serie_tome, views(e0),
                        views(report.errors@), views(g0), views(report.genres_added@), d0, *dirty, line@, rec, cs, ms,
                        numf, n + 1,
                    ) by {
                        assert(is_special(t));
                        lemma_row_quiet(fs, cur0, fv0, rec, cs, ms, numf, n);
                    }
                }
            },
            None => {
                let mut e = line.clone();
                e.append("tome « ");
                e.append(value.as_str());
                e.append(" » non numérique, ignoré");
                let ghost eb = report.errors@;
                report.errors.push(e);
                proof {
                    assert(report.errors@.take(e0.len() as int) =~= eb.take(e0.len() as int));
                    assert(views(report.errors@) =~= views(eb).push(e@));
                    assert forall|numf: spec_fn(Seq<char>) -> Option<ValueV>| reads_numbers(*number, numf) implies row_inv(
                        fs, schema.fields@, fields_view(*fields), opt_string(*serie_name), *serie_tome, views(e0),
                        views(report.errors@), views(g0), views(report.genres_added@), d0, *dirty, line@, rec, cs, ms,
                        numf, n + 1,
                    ) by {
                        assert(is_special(t));
                        lemma_row_quiet(fs, cur0, fv0, rec, cs, ms, numf, n);
                        assert(views(report.errors@) =~= views(e0) + errors_upto(line@, fs, rec, cs, ms, numf, (n + 1) as nat));
                    }
                }
            },
        }
        return;
    }
    let key = m.target.as_str();
    let j = match field_index(schema, key) {
        Some(j) => j,
        None => {
            proof {
                lemma_field_spec_grows(fs, cur0, t);
                assert forall|numf: spec_fn(Seq<char>) -> Option<ValueV>| reads_numbers(*number, numf) implies row_inv(
                    fs, schema.fields@, fields_view(*fields), opt_string(*serie_name), *serie_tome, views(e0),
                    views(report.errors@), views(g0), views(report.genres_added@), d0, *dirty, line@, rec, cs, ms,
                    numf, n + 1,
                ) by {
                    lemma_row_quiet(fs, cur0, fv0, rec, cs, ms, numf, n);
                }
            }
            return;
        },
    };
    proof {
        lemma_keys_same_first(fs, cur0, t);
    }
    if fields.contains_key(key) {
        proof {
            assert forall|numf: spec_fn(Seq<char>) -> Option<ValueV>| reads_numbers(*number, numf) implies row_inv(
                fs, schema.fields@, fields_view(*fields), opt_string(*serie_name), *serie_tome, views(e0),
                views(report.errors@), views(g0), views(report.genres_added@), d0, *dirty, line@, rec, cs, ms,
                numf, n + 1,
            ) by {
                assert(fv0.dom().contains(t));
                assert(giver(fs, rec, cs, ms, numf, n, t) is Some);
                lemma_givers_step(fs, rec, cs, ms, numf, n);
                assert forall|k: Seq<char>| giver(fs, rec, cs, ms, numf, n + 1, k) == giver(fs, rec, cs, ms, numf, n, k) by {
                    if k != t {
                        assert(!gives(fs, rec, cs, ms, numf, n, k));
                    }
                }
                assert forall|q: int| 0 <= q < fs.len() implies #[trigger] added_upto(fs, rec, cs, ms, numf, n + 1, q)
                    == added_upto(fs, rec, cs, ms, numf, n, q) by {
                    assert(giver(fs, rec, cs, ms, numf, n + 1, fs[q].key@) == giver(fs, rec, cs, ms, numf, n, fs[q].key@));
                }
            }
        }
        return;
    }
    let ft = schema.fields[j].field_type;
    let ghost v = value@;
    match ft {
        FieldType::Number | FieldType::Rating => {
            let nres = number(value.as_str());
            match nres {
                Some(nv) => {
                    fields.insert(m.target.clone(), nv);
                    proof {
                        assert forall|numf: spec_fn(Seq<char>) -> Option<ValueV>| reads_numbers(*number, numf) implies row_inv(
                            fs, schema.fields@, fields_view(*fields), opt_string(*serie_name), *serie_tome, views(e0),
                            views(report.errors@), views(g0), views(report.genres_added@), d0, *dirty, line@, rec, cs,
                            ms, numf, n + 1,
                        ) by {
                            lemma_field_untouched(fs, cur0, fv0, rec, cs, ms, numf, n, t, j as int);
                            assert(numf(v) == Some(vview(nv)));
                            lemma_row_gives(fs, cur0, fv0, rec, cs, ms, numf, n, t, vview(nv));
                            assert(fields_view(*fields) =~= fv0.insert(t, vview(nv)));
                        }
                        assert(fields_view(*fields).dom() =~= fv0.dom().insert(t));
                        lemma_keys_insert(*fields, fv0, cur0, t);
                    }
                },
                None => {
                    let mut e = line.clone();
                    e.append("« ");
                    e.append(value.as_str());
                    e.append(" » non numérique pour ");
                    e.append(key);
                    e.append(", ignoré");
                    let ghost eb = report.errors@;
                    report.errors.push(e);
                    proof {
                        assert(report.errors@.take(e0.len() as int) =~= eb.take(e0.len() as int));
                        assert(views(report.errors@) =~= views(eb).push(e@));
                        assert forall|numf: spec_fn(Seq<char>) -> Option<ValueV>| reads_numbers(*number, numf) implies row_inv(
                            fs, schema.fields@, fields_view(*fields), opt_string(*serie_name), *serie_tome, views(e0),
                            views(report.errors@), views(g0), views(report.genres_added@), d0, *dirty, line@, rec, cs,
                            ms, numf, n + 1,
                        ) by {
                            lemma_field_untouched(fs, cur0, fv0, rec, cs, ms, numf, n, t, j as int);
                            assert(numf(v) is None);
                            lemma_row_quiet(fs, cur0, fv0, rec, cs, ms, numf, n);
                            assert(views(report.errors@) =~= views(e0) + errors_upto(line@, fs, rec, cs, ms, numf, (n + 1) as nat));
                        }
                    }
                },
            }
        },
        FieldType::Select => {
            match find_canonical(&schema.fields[j], value.as_str()) {
                Some(o) => {
                    let x = Value::Str(schema.fields[j].options[o].value.clone());
                    fields.insert(m.target.clone(), x);
                    proof {
                        assert forall|numf: spec_fn(Seq<char>) -> Option<ValueV>| reads_numbers(*number, numf) implies row_inv(
                            fs, schema.fields@, fields_view(*fields), opt_string(*serie_name), *serie_tome, views(e0),
                            views(report.errors@), views(g0), views(report.genres_added@), d0, *dirty, line@, rec, cs,
                            ms, numf, n + 1,
                        ) by {
                            lemma_field_untouched(fs, cur0, fv0, rec, cs, ms, numf, n, t, j as int);
                            lemma_row_gives(fs, cur0, fv0, rec, cs, ms, numf, n, t, vview(x));
                            assert(fields_view(*fields) =~= fv0.insert(t, vview(x)));
                        }
                        assert(fields_view(*fields).dom() =~= fv0.dom().insert(t));
                        lemma_keys_insert(*fields, fv0, cur0, t);
                    }
                },
                None => {
                    add_select_option(schema, j, value.as_str());
                    *dirty = true;
                    let ghost gb = report.genres_added@;
                    report.genres_added.push(value.clone());
                    let x = Value::Str(value);
                    fields.insert(m.target.clone(), x);
                    proof {
                        lemma_schema_grows_trans(fs, cur0, schema.fields@);
                        assert(report.genres_added@.take(g0.len() as int) =~= gb.take(g0.len() as int));
                        assert(views(report.genres_added@) =~= views(gb).push(v));
                        assert forall|numf: spec_fn(Seq<char>) -> Option<ValueV>| reads_numbers(*number, numf) implies row_inv(
                            fs, schema.fields@, fields_view(*fields), opt_string(*serie_name), *serie_tome, views(e0),
                            views(report.errors@), views(g0), views(report.genres_added@), d0, *dirty, line@, rec, cs,
                            ms, numf, n + 1,
                        ) by {
                            lemma_field_untouched(fs, cur0, fv0, rec, cs, ms, numf, n, t, j as int);
                            lemma_row_adds(fs, cur0, schema.fields@, fv0, rec, cs, ms, numf, n, t, j as int);
                            assert(fields_view(*fields) =~= fv0.insert(t, vview(x)));
                            assert(views(report.genres_added@) =~= views(g0) + genres_upto(fs, rec, cs, ms, numf, (n + 1) as nat));
                        }
                        lemma_field_spec_grows(cur0, schema.fields@, t);
                        assert forall|k: Seq<char>| #[trigger] fields.view().dom().contains(k) implies field_spec(schema.fields@, k) is Some by {
                            lemma_field_spec_grows(cur0, schema.fields@, k);
                        }
                    }
                },
            }
        },
        _ => {
            let x = plain_cell(ft, value.as_str());
            fields.insert(m.target.clone(), x);
            proof {
                assert forall|numf: spec_fn(Seq<char>) -> Option<ValueV>| reads_numbers(*number, numf) implies row_inv(
                    fs, schema.fields@, fields_view(*fields), opt_string(*serie_name), *serie_tome, views(e0),
                    views(report.errors@), views(g0), views(report.genres_added@), d0, *dirty, line@, rec, cs,
                    ms, numf, n + 1,
                ) by {
                    lemma_field_untouched(fs, cur0, fv0, rec, cs, ms, numf, n, t, j as int);
                    lemma_row_gives(fs, cur0, fv0, rec, cs, ms, numf, n, t, vview(x));
                    assert(fields_view(*fields) =~= fv0.insert(t, vview(x)));
                }
                assert(fields_view(*fields).dom() =~= fv0.dom().insert(t));
                lemma_keys_insert(*fields, fv0, cur0, t);
            }
        },
    }
}

/// Keys and `first` are the same in a grown schema.
pub proof fn lemma_keys_same_first(a: Seq<FieldDef>, b: Seq<FieldDef>, t: Seq<char>)
    requires
        schema_grows(a, b),
    ensures
        first(a, key_is(t)) == first(b, key_is(t)),
        first(b, key_is(t)) matches Some(j) ==> field_spec(a, t) == Some(a[j]) && field_spec(b, t) == Some(b[j]),
        first(b, key_is(t)) is None ==> field_spec(a, t) is None,
{
    assert forall|q: int| 0 <= q < a.len() implies (key_is(t))(a[q]) == (key_is(t))(b[q]) by {
        assert(b[q].key == a[q].key);
    }
    lemma_first_pointwise(a, key_is(t), b, key_is(t));
}

/// Inserting a key of the schema keeps every key in the schema.
proof fn lemma_keys_insert(fields: StrMap<Value>, before: Map<Seq<char>, ValueV>, cur: Seq<FieldDef>, t: Seq<char>)
    requires
        fields_view(fields).dom() == before.dom().insert(t),
        forall|k: Seq<char>| #[trigger] before.dom().contains(k) ==> field_spec(cur, k) is Some,
        field_spec(cur, t) is Some,
    ensures
        keys_in_schema(fields, cur),
{
    assert forall|k: Seq<char>| #[trigger] fields.view().dom().contains(k) implies field_spec(cur, k) is Some by {
        assert(fields_view(fields).dom().contains(k));
        if k != t {
            assert(before.dom().contains(k));
        }
    }
}

/// A field that no mapping has given a value yet still has the options of
/// the schema as it was, and the mapping at hand targets it.
pub proof fn lemma_field_untouched(
    fs: Seq<FieldDef>,
    cur: Seq<FieldDef>,
    fv: Map<Seq<char>, ValueV>,
    rec: Seq<Seq<char>>,
    cs: Seq<usize>,
    ms: Seq<ColumnMapping>,
    numf: spec_fn(Seq<char>) -> Option<ValueV>,
    n: int,
    t: Seq<char>,
    j: int,
)
    requires
        0 <= n < ms.len(),
        ms[n].target@ == t,
        schema_grows(fs, cur),
        first(cur, key_is(t)) == Some(j),
        !fv.dom().contains(t),
        forall|k: Seq<char>|
            #![trigger fv.dom().contains(k)]
            #![trigger giver(fs, rec, cs, ms, numf, n, k)]
            fv.dom().contains(k) <==> giver(fs, rec, cs, ms, numf, n, k) is Some,
        options_added(fs, cur, rec, cs, ms, numf, n),
    ensures
        0 <= j < fs.len(),
        cur[j] == fs[j],
        fs[j].key@ == t,
        first(fs, key_is(t)) == Some(j),
        field_spec(fs, t) == Some(fs[j]),
        giver(fs, rec, cs, ms, numf, n, t) is None,
{
    lemma_keys_same_first(fs, cur, t);
    assert(is_first(cur, key_is(t), j));
    assert(cur[j].key == fs[j].key);
    assert(giver(fs, rec, cs, ms, numf, n, t) is None);
    assert(added_upto(fs, rec, cs, ms, numf, n, j) is None);
}

/// A mapping that gives field `t` its first value `x`, adding no option.
pub proof fn lemma_row_gives(
    fs: Seq<FieldDef>,
    cur: Seq<FieldDef>,
    fv: Map<Seq<char>, ValueV>,
    rec: Seq<Seq<char>>,
    cs: Seq<usize>,
    ms: Seq<ColumnMapping>,
    numf: spec_fn(Seq<char>) -> Option<ValueV>,
    n: int,
    t: Seq<char>,
    x: ValueV,
)
    requires
        0 <= n < ms.len(),
        ms[n].target@ == t,
        gives(fs, rec, cs, ms, numf, n, t),
        giver(fs, rec, cs, ms, numf, n, t) is None,
        x == given_value(fs, rec, cs, ms, numf, n, t),
        !adds_option(fs, rec, cs, ms, numf, n),
        forall|k: Seq<char>|
            #![trigger fv.dom().contains(k)]
            #![trigger giver(fs, rec, cs, ms, numf, n, k)]
            fv.dom().contains(k) <==> giver(fs, rec, cs, ms, numf, n, k) is Some,
        forall|k: Seq<char>| #[trigger] giver(fs, rec, cs, ms, numf, n, k) matches Some(i) ==> fv[k] == given_value(
            fs,
            rec,
            cs,
            ms,
            numf,
            i,
            k,
        ),
        options_added(fs, cur, rec, cs, ms, numf, n),
    ensures
        forall|k: Seq<char>|
            #![trigger fv.insert(t, x).dom().contains(k)]
            #![trigger giver(fs, rec, cs, ms, numf, n + 1, k)]
            fv.insert(t, x).dom().contains(k) <==> giver(fs, rec, cs, ms, numf, n + 1, k) is Some,
        forall|k: Seq<char>| #[trigger] giver(fs, rec, cs, ms, numf, n + 1, k) matches Some(i) ==> fv.insert(t, x)[k]
            == given_value(fs, rec, cs, ms, numf, i, k),
        options_added(fs, cur, rec, cs, ms, numf, n + 1),
{
    lemma_givers_step(fs, rec, cs, ms, numf, n);
    assert forall|k: Seq<char>| k != t implies giver(fs, rec, cs, ms, numf, n + 1, k) == giver(fs, rec, cs, ms, numf, n, k) by {
        assert(!gives(fs, rec, cs, ms, numf, n, k));
    }
    assert(giver(fs, rec, cs, ms, numf, n + 1, t) == Some(n));
    assert forall|q: int| 0 <= q < fs.len() implies #[trigger] added_upto(fs, rec, cs, ms, numf, n + 1, q) == added_upto(
        fs,
        rec,
        cs,
        ms,
        numf,
        n,
        q,
    ) by {
        if fs[q].key@ != t {
            assert(giver(fs, rec, cs, ms, numf, n + 1, fs[q].key@) == giver(fs, rec, cs, ms, numf, n, fs[q].key@));
        }
    }
}

/// A mapping that gives select field `t` (at `j`) a value no option
/// matches: the value is appended to its options.
pub proof fn lemma_row_adds(
    fs: Seq<FieldDef>,
    cur: Seq<FieldDef>,
    cur1: Seq<FieldDef>,
    fv: Map<Seq<char>, ValueV>,
    rec: Seq<Seq<char>>,
    cs: Seq<usize>,
    ms: Seq<ColumnMapping>,
    numf: spec_fn(Seq<char>) -> Option<ValueV>,
    n: int,
    t: Seq<char>,
    j: int,
)
    requires
        0 <= n < ms.len(),
        ms[n].target@ == t,
        !is_special(t),
        0 <= j < fs.len(),
        cur[j] == fs[j],
        fs[j].key@ == t,
        first(fs, key_is(t)) == Some(j),
        field_spec(fs, t) == Some(fs[j]),
        fs[j].field_type == FieldType::Select,
        read_at(rec, cs, ms, n) is Some,
        canonical_option(fs[j].options@, read_at(rec, cs, ms, n).unwrap()) is None,
        giver(fs, rec, cs, ms, numf, n, t) is None,
        cur1.len() == cur.len(),
        option_added(cur[j], cur1[j], read_at(rec, cs, ms, n).unwrap()),
        forall|q: int| 0 <= q < cur.len() && q != j ==> cur1[q] == cur[q],
        forall|k: Seq<char>|
            #![trigger fv.dom().contains(k)]
            #![trigger giver(fs, rec, cs, ms, numf, n, k)]
            fv.dom().contains(k) <==> giver(fs, rec, cs, ms, numf, n, k) is Some,
        forall|k: Seq<char>| #[trigger] giver(fs, rec, cs, ms, numf, n, k) matches Some(i) ==> fv[k] == given_value(
            fs,
            rec,
            cs,
            ms,
            numf,
            i,
            k,
        ),
        options_added(fs, cur, rec, cs, ms, numf, n),
    ensures
        adds_option(fs, rec, cs, ms, numf, n),
        forall|k: Seq<char>|
            #![trigger fv.insert(t, ValueV::Str(read_at(rec, cs, ms, n).unwrap())).dom().contains(k)]
            #![trigger giver(fs, rec, cs, ms, numf, n + 1, k)]
            fv.insert(t, ValueV::Str(read_at(rec, cs, ms, n).unwrap())).dom().contains(k) <==> giver(
                fs,
                rec,
                cs,
                ms,
                numf,
                n + 1,
                k,
            ) is Some,
        forall|k: Seq<char>| #[trigger] giver(fs, rec, cs, ms, numf, n + 1, k) matches Some(i) ==> fv.insert(
            t,
            ValueV::Str(read_at(rec, cs, ms, n).unwrap()),
        )[k] == given_value(fs, rec, cs, ms, numf, i, k),
        options_added(fs, cur1, rec, cs, ms, numf, n + 1),
{
    assert(gives(fs, rec, cs, ms, numf, n, t));
    lemma_givers_step(fs, rec, cs, ms, numf, n);
    assert forall|k: Seq<char>| k != t implies giver(fs, rec, cs, ms, numf, n + 1, k) == giver(fs, rec, cs, ms, numf, n, k) by {
        assert(!gives(fs, rec, cs, ms, numf, n, k));
    }
    assert(giver(fs, rec, cs, ms, numf, n + 1, t) == Some(n));
    assert forall|q: int| 0 <= q < fs.len() implies match #[trigger] added_upto(fs, rec, cs, ms, numf, n + 1, q) {
        Some(w) => option_added(fs[q], cur1[q], w),
        None => cur1[q] == fs[q],
    } by {
        if q == j {
            assert(added_upto(fs, rec, cs, ms, numf, n + 1, q) == read_at(rec, cs, ms, n));
        } else if fs[q].key@ == t {
            assert(first(fs, key_is(t)) != Some(q));
            assert(added_upto(fs, rec, cs, ms, numf, n, q) is None);
        } else {
            assert(giver(fs, rec, cs, ms, numf, n + 1, fs[q].key@) == giver(fs, rec, cs, ms, numf, n, fs[q].key@));
            assert(added_upto(fs, rec, cs, ms, numf, n + 1, q) == added_upto(fs, rec, cs, ms, numf, n, q));
        }
    }
}

// ---------------------------------------------------------------------------
// Series, titles, duplicates
// ---------------------------------------------------------------------------

/// The value of a series reference: `{"id": id}`, with `"tome"` when the
/// volume is known.
pub open spec fn series_ref_value(id: Seq<char>, tome: Option<i64>) -> ValueV {
    ValueV::Object(
        seq![("id"@, ValueV::Str(id))] + match tome {
            Some(t) => seq![("tome"@, ValueV::Number(decimal_int(t as int)))],
            None => Seq::empty(),
        },
    )
}

/// The text of field `k`, or nothing.
pub open spec fn ftext(fields: StrMap<Value>, k: Seq<char>) -> Seq<char> {
    match fval(fields, k) {
        Some(Value::Str(t)) => t@,
        _ => Seq::empty(),
    }
}

/// Whether a row names a one-shot: same name as its title, no volume.
pub open spec fn one_shot(options: ImportOptions, fields: StrMap<Value>, titre_key: Seq<char>, name: Seq<char>, tome: Option<i64>) -> bool {
    options.oneshot_if_serie_equals_titre && tome is None && normalize_spec(ftext(fields, titre_key)) == normalize_spec(name)
}

/// Links a row to its series, creating the series when its identifier
/// (the slug of its name) is new. A one-shot gets no series.
pub fn attach_series(
    fields: &mut StrMap<Value>,
    serie_name: Option<String>,
    serie_tome: Option<i64>,
    titre_key: &str,
    serie_key: Option<&String>,
    series: &mut Vec<Series>,
    created: &mut usize,
    options: &ImportOptions,
)
    requires
        old(fields).wf(),
        *old(created) < usize::MAX,
    ensures
        final(fields).wf(),
        final(series)@.take(old(series)@.len() as int) == old(series)@,
        match serie_name {
            Some(name) => {
                let id = slugify_spec(name@);
                if one_shot(*options, *old(fields), titre_key@, name@, serie_tome) || serie_key is None || id.len() == 0 {
                    *final(fields) == *old(fields) && final(series)@ == old(series)@ && *final(created) == *old(created)
                } else {
                    &&& final(fields).view().dom() == old(fields).view().dom().insert(serie_key.unwrap()@)
                    &&& forall|k: Seq<char>| #[trigger] old(fields).view().dom().contains(k) && k != serie_key.unwrap()@
                        ==> final(fields).view()[k] == old(fields).view()[k]
                    &&& vview(final(fields).view()[serie_key.unwrap()@]) == series_ref_value(id, serie_tome)
                    &&& if first(old(series)@, same_id(id)) is Some {
                        final(series)@ == old(series)@ && *final(created) == *old(created)
                    } else {
                        &&& final(series)@.len() == old(series)@.len() + 1
                        &&& final(series)@.last().id@ == id
                        &&& final(series)@.last().nom@ == name@
                        &&& !final(series)@.last().terminee
                        &&& *final(created) == *old(created) + 1
                    }
                }
            },
            None => *final(fields) == *old(fields) && final(series)@ == old(series)@ && *final(created) == *old(created),
        },
{
    assert(series@.take(series@.len() as int) =~= series@);
    let name = match serie_name {
        Some(n) => n,
        None => return,
    };
    let titre: String = match fields.get(titre_key) {
        Some(Value::Str(t)) => t.clone(),
        _ => String::new(),
    };
    let is_oneshot = options.oneshot_if_serie_equals_titre && serie_tome.is_none()
        && str_eq(normalize(titre.as_str()).as_str(), normalize(name.as_str()).as_str());
    if is_oneshot {
        return;
    }
    let key = match serie_key {
        Some(k) => k,
        None => return,
    };
    let id = slugify(name.as_str());
    if id.as_str().is_empty() {
        return;
    }
    if find_series(series, id.as_str()).is_none() {
        let ghost before = series@;
        series.push(Series { id: id.clone(), nom: name, terminee: false });
        *created = *created + 1;
        assert(series@.take(before.len() as int) =~= before);
    }
    let mut members: Vec<(String, Value)> = Vec::new();
    let idv = Value::Str(id.clone());
    members.push((owned("id"), idv));
    proof {
        lemma_mviews_push(Seq::empty(), (members@[0].0, idv));
        assert(Seq::<(String, Value)>::empty().push(members@[0]) =~= members@);
    }
    match serie_tome {
        Some(t) => {
            let ghost m0 = members@;
            let tv = Value::Number(format_i64(t));
            let pair = (owned("tome"), tv);
            members.push(pair);
            proof {
                lemma_mviews_push(m0, pair);
            }
        },
        None => {},
    }
    let obj = Value::Object(members);
    proof {
        assert(mviews(members@) =~= seq![("id"@, ValueV::Str(id@))] + match serie_tome {
            Some(t) => seq![("tome"@, ValueV::Number(decimal_int(t as int)))],
            None => Seq::empty(),
        });
    }
    let ghost fb = *fields;
    fields.insert(key.clone(), obj);
    assert(fields.view().dom() =~= fb.view().dom().insert(key@));
}

/// A row whose title is missing or blank is not imported.
pub open spec fn title_missing(fields: StrMap<Value>, titre_key: Seq<char>) -> bool {
    match fval(fields, titre_key) {
        Some(Value::Str(t)) => trim_spec(t@).len() == 0,
        _ => true,
    }
}

pub fn is_title_missing(fields: &StrMap<Value>, titre_key: &str) -> (r: bool)
    requires
        fields.wf(),
    ensures
        r == title_missing(*fields, titre_key@),
{
    match fields.get(titre_key) {
        Some(Value::Str(t)) => is_blank(t.as_str()),
        _ => true,
    }
}

/// `first` only depends on what the predicate says of each position.
pub proof fn lemma_first_pointwise<A, B>(a: Seq<A>, p: spec_fn(A) -> bool, b: Seq<B>, q: spec_fn(B) -> bool)
    requires
        a.len() == b.len(),
        forall|j: int| 0 <= j < a.len() ==> p(a[j]) == q(b[j]),
    ensures
        first(a, p) == first(b, q),
{
    if exists|i: int| is_first(a, p, i) {
        let i = choose|i: int| is_first(a, p, i);
        assert(is_first(b, q, i)) by {
            assert forall|j: int| 0 <= j < i implies !q(#[trigger] b[j]) by {
                assert(p(a[j]) == q(b[j]));
            }
        }
        lemma_first_some(a, p, i);
        lemma_first_some(b, q, i);
    } else if exists|i: int| is_first(b, q, i) {
        let i = choose|i: int| is_first(b, q, i);
        assert(is_first(a, p, i)) by {
            assert forall|j: int| 0 <= j < i implies !p(#[trigger] a[j]) by {
                assert(p(a[j]) == q(b[j]));
            }
        }
    }
}

/// The duplicate keys do not depend on the options of a schema.
/// Fields with the same keys find the same field for a key.
proof fn lemma_find_map_keys(a: Seq<FieldDef>, b: Seq<FieldDef>, w: Seq<char>)
    requires
        a.len() == b.len(),
        forall|j: int| 0 <= j < a.len() ==> (#[trigger] a[j]).key == b[j].key,
    ensures
        find_map(a, matcher(w)) is Some <==> find_map(b, matcher(w)) is Some,
        find_map(a, matcher(w)) is Some ==> find_map(a, matcher(w)).unwrap().key == find_map(b, matcher(w)).unwrap().key,
    decreases a.len(),
{
    if a.len() > 0 {
        assert(a[0].key == b[0].key);
        let a1 = a.drop_first();
        let b1 = b.drop_first();
        assert forall|j: int| 0 <= j < a1.len() implies (#[trigger] a1[j]).key == b1[j].key by {
            assert(a1[j] == a[j + 1] && b1[j] == b[j + 1]);
        }
        lemma_find_map_keys(a1, b1, w);
    }
}

/// Fields with the same keys find the same key for a role.
proof fn lemma_target_keys(a: Seq<FieldDef>, b: Seq<FieldDef>, wanted: Seq<Seq<char>>)
    requires
        a.len() == b.len(),
        forall|j: int| 0 <= j < a.len() ==> (#[trigger] a[j]).key == b[j].key,
    ensures
        target_spec(a, wanted) is Some <==> target_spec(b, wanted) is Some,
        target_spec(a, wanted) is Some ==> target_spec(a, wanted).unwrap().key == target_spec(b, wanted).unwrap().key,
    decreases wanted.len(),
{
    if wanted.len() > 0 {
        lemma_find_map_keys(a, b, wanted[0]);
        lemma_target_keys(a, b, wanted.drop_first());
    }
}

pub proof fn lemma_dedup_grows(a: Seq<FieldDef>, b: Seq<FieldDef>, fields: StrMap<Value>)
    requires
        schema_grows(a, b),
    ensures
        dedup_triple(a, fields) == dedup_triple(b, fields),
{
    assert forall|j: int| 0 <= j < a.len() implies (#[trigger] a[j]).key == b[j].key by {
        assert(b[j].key == a[j].key);
    }
    lemma_target_keys(a, b, author_keys());
    lemma_target_keys(a, b, publisher_keys());
    let r1 = |f: FieldDef| is_required_text(f);
    let t1 = |f: FieldDef| is_text(f);
    assert forall|j: int| 0 <= j < a.len() implies r1(a[j]) == r1(b[j]) && t1(a[j]) == t1(b[j]) by {
        assert(b[j].field_type == a[j].field_type && b[j].required == a[j].required);
    }
    lemma_first_pointwise(a, r1, b, r1);
    lemma_first_pointwise(a, t1, b, t1);
    match first(a, r1) {
        Some(i) => {
            assert(b[i].key == a[i].key);
        },
        None => match first(a, t1) {
            Some(i) => {
                assert(b[i].key == a[i].key);
            },
            None => {},
        },
    }
}

// ---------------------------------------------------------------------------
// Sorted, duplicate-free lists of names
// ---------------------------------------------------------------------------

pub proof fn lemma_lex_antisym(a: Seq<char>, b: Seq<char>)
    requires
        lex_le(a, b),
        lex_le(b, a),
    ensures
        a == b,
    decreases a.len(),
{
    if a.len() > 0 && b.len() > 0 {
        lemma_lex_antisym(a.drop_first(), b.drop_first());
        assert(a =~= seq![a[0]] + a.drop_first());
        assert(b =~= seq![b[0]] + b.drop_first());
    }
}

pub proof fn lemma_insert_to_set<A>(s: Seq<A>, p: int, x: A)
    requires
        0 <= p <= s.len(),
    ensures
        s.insert(p, x).to_set() =~= s.to_set().insert(x),
{
    let t = s.insert(p, x);
    assert forall|y: A| t.contains(y) implies s.to_set().insert(x).contains(y) by {
        let i = choose|i: int| 0 <= i < t.len() && t[i] == y;
        if i < p {
            assert(s[i] == y);
        } else if i > p {
            assert(s[i - 1] == y);
        }
    }
    assert forall|y: A| s.to_set().insert(x).contains(y) implies t.contains(y) by {
        if y == x {
            assert(t[p] == x);
        } else {
            let i = choose|i: int| 0 <= i < s.len() && s[i] == y;
            if i < p {
                assert(t[i] == y);
            } else {
                assert(t[i + 1] == y);
            }
        }
    }
}

/// Strictly increasing in the order of `str`.
pub open spec fn strictly_sorted(s: Seq<Seq<char>>) -> bool {
    forall|i: int, j: int| 0 <= i < j < s.len() ==> lex_le(#[trigger] s[i], #[trigger] s[j]) && s[i] != s[j]
}

/// The names of `v`, sorted, each once (`sort` then `dedup`).
pub fn sort_dedup(v: Vec<String>) -> (r: Vec<String>)
    ensures
        views(r@).to_set() == views(v@).to_set(),
        strictly_sorted(views(r@)),
{
    let mut out: Vec<String> = Vec::new();
    let mut keys: Vec<Vec<char>> = Vec::new();
    let ghost all = v@;
    let mut i: usize = 0;
    assert(views(out@).to_set() =~= views(all.take(0)).to_set());
    while i < v.len()
        invariant
            i <= v@.len(),
            all == v@,
            keys@.len() == out@.len(),
            forall|j: int| 0 <= j < keys@.len() ==> (#[trigger] keys@[j])@ == out@[j]@,
            strictly_sorted(views(out@)),
            views(out@).to_set() == views(all.take(i as int)).to_set(),
        decreases v@.len() - i,
    {
        let k = chars_of(v[i].as_str());
        let ghost before = out@;
        assert(views(all.take(i + 1)) =~= views(all.take(i as int)).push(all[i as int]@));
        let mut p: usize = 0;
        while p < out.len() && !lex_le_exec(&k, &keys[p])
            invariant
                p <= out@.len(),
                keys@.len() == out@.len(),
                forall|j: int| 0 <= j < keys@.len() ==> (#[trigger] keys@[j])@ == out@[j]@,
                forall|j: int| 0 <= j < p ==> lex_le(#[trigger] out@[j]@, k@) && out@[j]@ != k@,
            decreases out@.len() - p,
        {
            proof {
                lemma_lex_total(k@, keys@[p as int]@);
            }
            p = p + 1;
        }
        if p < out.len() && seq_eq(&k, &keys[p]) {
            proof {
                assert(views(out@)[p as int] == k@);
                assert(views(out@).to_set().contains(k@));
                views(all.take(i as int)).lemma_push_to_set_commute(k@);
                assert(views(all.take(i + 1)).to_set() =~= views(all.take(i as int)).to_set().insert(k@));
            }
        } else {
            proof {
                if p < out@.len() {
                    assert(lex_le(k@, out@[p as int]@) && k@ != out@[p as int]@);
                    assert forall|j: int| p <= j < out@.len() implies lex_le(k@, #[trigger] out@[j]@) && k@ != out@[j]@ by {
                        if j > p {
                            assert(views(out@)[p as int] == out@[p as int]@ && views(out@)[j] == out@[j]@);
                            lemma_lex_trans(k@, out@[p as int]@, out@[j]@);
                            if k@ == out@[j]@ {
                                lemma_lex_antisym(out@[p as int]@, out@[j]@);
                            }
                        }
                    }
                }
            }
            let s = string_of(&k);
            out.insert(p, s);
            keys.insert(p, k);
            proof {
                assert(out@ == before.insert(p as int, s));
                assert(views(out@) =~= views(before).insert(p as int, k@));
                assert forall|a: int, b: int| 0 <= a < b < views(out@).len() implies lex_le(#[trigger] views(out@)[a], #[trigger] views(out@)[b]) && views(out@)[a] != views(out@)[b] by {
                    assert(views(out@)[a] == out@[a]@ && views(out@)[b] == out@[b]@);
                    if a < p && b < p {
                        assert(out@[a] == before[a] && out@[b] == before[b]);
                        assert(views(before)[a] == before[a]@ && views(before)[b] == before[b]@);
                    } else if a < p && b == p {
                        assert(out@[a] == before[a]);
                    } else if a < p && b > p {
                        assert(out@[a] == before[a] && out@[b] == before[b - 1]);
                        lemma_lex_trans(out@[a]@, k@, out@[b]@);
                        if out@[a]@ == out@[b]@ {
                            lemma_lex_antisym(out@[a]@, k@);
                        }
                    } else if a == p {
                        assert(out@[b] == before[b - 1]);
                    } else {
                        assert(out@[a] == before[a - 1] && out@[b] == before[b - 1]);
                        assert(views(before)[a - 1] == before[a - 1]@ && views(before)[b - 1] == before[b - 1]@);
                    }
                }
                assert forall|j: int| 0 <= j < keys@.len() implies (#[trigger] keys@[j])@ == out@[j]@ by {
                    if j < p {
                        assert(out@[j] == before[j]);
                    } else if j > p {
                        assert(out@[j] == before[j - 1]);
                    }
                }
                lemma_insert_to_set(views(before), p as int, k@);
                views(all.take(i as int)).lemma_push_to_set_commute(k@);
                assert(views(all.take(i + 1)).to_set() =~= views(all.take(i as int)).to_set().insert(k@));
            }
        }
        i = i + 1;
    }
    assert(all.take(all.len() as int) =~= all);
    out
}

// ---------------------------------------------------------------------------
// The import
// ---------------------------------------------------------------------------

/// The number of records that could be read.
pub open spec fn ok_count(rs: Seq<Result<Vec<String>, String>>) -> nat
    decreases rs.len(),
{
    if rs.len() == 0 {
        0
    } else {
        ok_count(rs.drop_last()) + if rs.last() is Ok { 1nat } else { 0nat }
    }
}

/// The duplicate triples of a list of items.
pub open spec fn triples_of(fs: Seq<FieldDef>, items: Seq<Item>) -> Seq<Seq<char>> {
    items.map_values(|it: Item| dedup_triple(fs, it.fields))
}

/// The EANs of a list of items (those that have one).
pub open spec fn eans_of(items: Seq<Item>) -> Seq<Seq<char>> {
    items.filter_map(|it: Item| dedup_ean(it.fields))
}

/// No imported item repeats the EAN or the title-author-publisher key of
/// an existing item or of an item imported before it.
pub open spec fn no_duplicates(fs: Seq<FieldDef>, existing: Seq<Item>, items: Seq<Item>) -> bool {
    forall|k: int| 0 <= k < items.len() ==> {
        &&& !triples_of(fs, existing).contains(dedup_triple(fs, (#[trigger] items[k]).fields))
        &&& !triples_of(fs, items.take(k)).contains(dedup_triple(fs, items[k].fields))
        &&& (dedup_ean(items[k].fields) matches Some(e) ==> !eans_of(existing).contains(e) && !eans_of(items.take(k)).contains(e))
    }
}

/// What an imported item is: the next internal ID, owned, added today,
/// with a shelf mark and a title.
pub open spec fn imported_item(item: Item, prefix: Seq<char>, n: nat, today: Seq<char>, fs: Seq<FieldDef>, titre_key: Seq<char>) -> bool {
    &&& item.id@ == id_text(prefix, n)
    &&& item.statut == Statut::Possede
    &&& item.emplacement is None
    &&& item.etiquette is None
    &&& item.date_ajout@ == today
    &&& item.cote is Some
    &&& item.fields.wf()
    &&& keys_in_schema(item.fields, fs)
    &&& !title_missing(item.fields, titre_key)
}

/// What an import hands back: the report, the new items (to save and
/// index), the sorted series registry and whether the schema changed.
#[derive(Debug)]
pub struct ImportResult {
    pub report: ImportReport,
    pub items: Vec<Item>,
    pub series: Vec<Series>,
    pub schema_changed: bool,
}

/// Whether a row repeats known keys; if not, its keys become known.
fn check_duplicate(
    schema: &Schema,
    fields: &StrMap<Value>,
    seen_ean: &mut Vec<String>,
    seen_triple: &mut Vec<String>,
) -> (dup: bool)
    requires
        fields.wf(),
    ensures
        dup == ((dedup_ean(*fields) matches Some(e) && views(old(seen_ean)@).contains(e))
            || views(old(seen_triple)@).contains(dedup_triple(schema.fields@, *fields))),
        dup ==> final(seen_ean)@ == old(seen_ean)@ && final(seen_triple)@ == old(seen_triple)@,
        !dup ==> views(final(seen_triple)@) == views(old(seen_triple)@).push(dedup_triple(schema.fields@, *fields)),
        !dup ==> views(final(seen_ean)@) == match dedup_ean(*fields) {
            Some(e) => views(old(seen_ean)@).push(e),
            None => views(old(seen_ean)@),
        },
{
    let (ean, triple) = dedup_keys(schema, fields);
    let ean_dup = match &ean {
        Some(e) => contains_string(seen_ean, e.as_str()),
        None => false,
    };
    let dup = ean_dup || contains_string(seen_triple, triple.as_str());
    if dup {
        return true;
    }
    let ghost t0 = seen_triple@;
    let ghost e0 = seen_ean@;
    seen_triple.push(triple);
    assert(views(seen_triple@) =~= views(t0).push(dedup_triple(schema.fields@, *fields)));
    match ean {
        Some(e) => {
            seen_ean.push(e);
            assert(views(seen_ean@) =~= views(e0).push(dedup_ean(*fields).unwrap()));
        },
        None => {},
    }
    false
}

/// Creates the item of an imported row: next internal ID, owned, dated
/// `today`, with its shelf mark.
fn new_item(schema: &Schema, counters: &mut Counters, fields: StrMap<Value>, today: &str) -> (item: Item)
    requires
        fields.wf(),
        counters_room(*old(counters)),
        old(counters).next_id < u64::MAX,
    ensures
        made_item(item, *schema, *old(counters), *final(counters), fields, today@),
{
    counters.next_id = counters.next_id + 1;
    let mut id = schema.id_prefix.clone();
    push_char(&mut id, '-');
    id.append(crate::text::format_padded(counters.next_id, 5).as_str());
    assert(id@ == id_text(schema.id_prefix@, (old(counters).next_id + 1) as nat));
    let mut item = Item {
        id,
        cote: None,
        statut: Statut::Possede,
        emplacement: None,
        etiquette: None,
        date_ajout: owned(today),
        fields,
    };
    let ghost c1 = *counters;
    let ghost item0 = item;
    let c = Library::allocate_cote(schema, &item, counters);
    item.cote = Some(c);
    assert(cote_prefix_spec(*schema, item) == cote_prefix_spec(*schema, item0));
    assert(forall|p: Seq<char>| seq_of(c1, p) == #[trigger] seq_of(*old(counters), p));
    item
}

/// Counters with room for `n` more internal IDs and shelf marks.
pub open spec fn counters_margin(c: Counters, n: int) -> bool {
    &&& c.cotes.wf()
    &&& c.next_id + n < u64::MAX
    &&& forall|k: Seq<char>| #[trigger] c.cotes.view().dom().contains(k) ==> c.cotes.view()[k] + n < u64::MAX
}

/// What holds after each row of an import.
pub open spec fn run_inv(
    s0: Schema,
    schema: Schema,
    c0: Counters,
    counters: Counters,
    remaining: int,
    items: Seq<Item>,
    report: ImportReport,
    series0: Seq<Series>,
    series: Seq<Series>,
    dirty: bool,
    today: Seq<char>,
    titre_key: Seq<char>,
    serie_key: Option<Seq<char>>,
    skip: bool,
    existing: Seq<Item>,
    seen_ean: Seq<Seq<char>>,
    seen_triple: Seq<Seq<char>>,
) -> bool {
    &&& schema.name == s0.name
    &&& schema.id_prefix == s0.id_prefix
    &&& schema.source == s0.source
    &&& schema.cote == s0.cote
    &&& schema_grows(s0.fields@, schema.fields@)
    &&& (dirty || schema.fields@ == s0.fields@)
    &&& counters_margin(counters, remaining)
    &&& counters.next_id == c0.next_id + items.len()
    &&& report.imported == items.len()
    &&& report.imported + report.skipped_duplicates <= report.total_rows
    &&& series.len() == series0.len() + report.series_created
    &&& series.take(series0.len() as int) == series0
    &&& (forall|k: int| 0 <= k < items.len() ==> imported_item(
        #[trigger] items[k],
        s0.id_prefix@,
        (c0.next_id + k + 1) as nat,
        today,
        schema.fields@,
        titre_key,
    ))
    &&& (skip ==> seen_triple == triples_of(s0.fields@, existing) + triples_of(s0.fields@, items))
    &&& (skip ==> seen_ean == eans_of(existing) + eans_of(items))
    &&& (skip ==> no_duplicates(s0.fields@, existing, items))
    &&& (serie_key is Some ==> field_spec(schema.fields@, serie_key.unwrap()) is Some)
    &&& title_field_spec(s0.fields@) is Some
    &&& titre_key == title_field_spec(s0.fields@).unwrap().key@
}

/// An import between two records.
pub ghost struct ImportState {
    pub schema: Schema,
    pub counters: Counters,
    pub series: Seq<Series>,
    pub items: Seq<Item>,
    pub total_rows: int,
    pub skipped: int,
    pub created: int,
    pub errors: Seq<Seq<char>>,
    pub genres: Seq<Seq<char>>,
    pub dirty: bool,
    pub seen_ean: Seq<Seq<char>>,
    pub seen_triple: Seq<Seq<char>>,
}

pub open spec fn state_of(
    schema: Schema,
    counters: Counters,
    series: Seq<Series>,
    items: Seq<Item>,
    report: ImportReport,
    dirty: bool,
    seen_ean: Seq<String>,
    seen_triple: Seq<String>,
) -> ImportState {
    ImportState {
        schema,
        counters,
        series,
        items,
        total_rows: report.total_rows as int,
        skipped: report.skipped_duplicates as int,
        created: report.series_created as int,
        errors: views(report.errors@),
        genres: views(report.genres_added@),
        dirty,
        seen_ean: views(seen_ean),
        seen_triple: views(seen_triple),
    }
}

/// The fields that a record gives (see `gives` and `given_value`).
pub open spec fn row_fields(
    fs: Seq<FieldDef>,
    rec: Seq<Seq<char>>,
    cs: Seq<usize>,
    ms: Seq<ColumnMapping>,
    numf: spec_fn(Seq<char>) -> Option<ValueV>,
) -> Map<Seq<char>, ValueV> {
    Map::new(
        |k: Seq<char>| giver(fs, rec, cs, ms, numf, ms.len() as int, k) is Some,
        |k: Seq<char>| given_value(fs, rec, cs, ms, numf, giver(fs, rec, cs, ms, numf, ms.len() as int, k).unwrap(), k),
    )
}

/// What `attach_series` does to the fields and the registry.
pub open spec fn attached(
    f1: StrMap<Value>,
    f2: StrMap<Value>,
    name: Option<Seq<char>>,
    tome: Option<i64>,
    titre_key: Seq<char>,
    sk: Option<Seq<char>>,
    s1: Seq<Series>,
    s2: Seq<Series>,
    options: ImportOptions,
) -> bool {
    &&& f2.wf()
    &&& s2.take(s1.len() as int) == s1
    &&& match name {
        Some(nm) => {
            let id = slugify_spec(nm);
            if one_shot(options, f1, titre_key, nm, tome) || sk is None || id.len() == 0 {
                f2 == f1 && s2 == s1
            } else {
                &&& f2.view().dom() == f1.view().dom().insert(sk.unwrap())
                &&& forall|k: Seq<char>| #[trigger] f1.view().dom().contains(k) && k != sk.unwrap() ==> f2.view()[k]
                    == f1.view()[k]
                &&& vview(f2.view()[sk.unwrap()]) == series_ref_value(id, tome)
                &&& if first(s1, same_id(id)) is Some {
                    s2 == s1
                } else {
                    &&& s2.len() == s1.len() + 1
                    &&& s2.last().id@ == id
                    &&& s2.last().nom@ == nm
                    &&& !s2.last().terminee
                }
            }
        },
        None => f2 == f1 && s2 == s1,
    }
}

/// The fields repeat a known EAN or title-author-publisher key.
pub open spec fn known_dup(fs: Seq<FieldDef>, fields: StrMap<Value>, seen_ean: Seq<Seq<char>>, seen_triple: Seq<Seq<char>>) -> bool {
    (dedup_ean(fields) matches Some(e) && seen_ean.contains(e)) || seen_triple.contains(dedup_triple(fs, fields))
}

/// The item made of an imported row.
pub open spec fn made_item(it: Item, schema: Schema, c0: Counters, c1: Counters, fields: StrMap<Value>, today: Seq<char>) -> bool {
    &&& it.id@ == id_text(schema.id_prefix@, (c0.next_id + 1) as nat)
    &&& it.statut == Statut::Possede
    &&& it.emplacement is None
    &&& it.etiquette is None
    &&& it.date_ajout@ == today
    &&& it.fields == fields
    &&& c1.next_id == c0.next_id + 1
    &&& c1.cotes.wf()
    &&& match cote_prefix_spec(schema, it) {
        None => it.cote matches Some(c) && c@ == it.id@ && c1.cotes.view() == c0.cotes.view(),
        Some(p) => {
            &&& it.cote matches Some(c) && c@ == cote_text(p, seq_of(c0, p) + 1)
            &&& c1.cotes.view() == c0.cotes.view().insert(p, (seq_of(c0, p) + 1) as u64)
        },
    }
}

/// One readable record, through the intermediate values `fields1`
/// (mapped), `schema1` (options added), `fields2` and `series1` (series
/// attached) and `item` (when one is made).
pub open spec fn row_step_via(
    numf: spec_fn(Seq<char>) -> Option<ValueV>,
    b: ImportState,
    a: ImportState,
    rec: Seq<Seq<char>>,
    prefix: Seq<char>,
    cs: Seq<usize>,
    ms: Seq<ColumnMapping>,
    options: ImportOptions,
    today: Seq<char>,
    titre_key: Seq<char>,
    sk: Option<Seq<char>>,
    fields1: StrMap<Value>,
    schema1: Schema,
    fields2: StrMap<Value>,
    series1: Seq<Series>,
    item: Item,
) -> bool {
    let fs = b.schema.fields@;
    let n = ms.len() as nat;
    let errs1 = b.errors + errors_upto(prefix, fs, rec, cs, ms, numf, n);
    &&& fields1.wf()
    &&& fields_view(fields1) == row_fields(fs, rec, cs, ms, numf)
    &&& schema1.name == b.schema.name
    &&& schema1.id_prefix == b.schema.id_prefix
    &&& schema1.source == b.schema.source
    &&& schema1.cote == b.schema.cote
    &&& schema_grows(fs, schema1.fields@)
    &&& options_added(fs, schema1.fields@, rec, cs, ms, numf, n as int)
    &&& attached(fields1, fields2, serie_upto(rec, cs, ms, n), tome_upto(rec, cs, ms, n), titre_key, sk, b.series,
        series1, options)
    &&& a.schema == schema1
    &&& a.series == series1
    &&& a.genres == b.genres + genres_upto(fs, rec, cs, ms, numf, n)
    &&& a.dirty == (b.dirty || genres_upto(fs, rec, cs, ms, numf, n).len() > 0)
    &&& a.total_rows == b.total_rows + 1
    &&& a.created == b.created + series1.len() - b.series.len()
    &&& if title_missing(fields2, titre_key) {
        &&& a.errors == errs1.push(prefix + "titre manquant, ligne ignorée"@)
        &&& a.items == b.items && a.counters == b.counters && a.skipped == b.skipped
        &&& a.seen_ean == b.seen_ean && a.seen_triple == b.seen_triple
    } else if options.skip_duplicates && known_dup(schema1.fields@, fields2, b.seen_ean, b.seen_triple) {
        &&& a.errors == errs1
        &&& a.items == b.items && a.counters == b.counters && a.skipped == b.skipped + 1
        &&& a.seen_ean == b.seen_ean && a.seen_triple == b.seen_triple
    } else {
        &&& a.errors == errs1
        &&& a.skipped == b.skipped
        &&& a.items == b.items.push(item)
        &&& made_item(item, schema1, b.counters, a.counters, fields2, today)
        &&& a.seen_triple == if options.skip_duplicates {
            b.seen_triple.push(dedup_triple(schema1.fields@, fields2))
        } else {
            b.seen_triple
        }
        &&& a.seen_ean == if options.skip_duplicates {
            match dedup_ean(fields2) {
                Some(e) => b.seen_ean.push(e),
                None => b.seen_ean,
            }
        } else {
            b.seen_ean
        }
    }
}

/// What importing record number `row` (from 0) does to the import.
pub open spec fn row_step(
    numf: spec_fn(Seq<char>) -> Option<ValueV>,
    b: ImportState,
    a: ImportState,
    record: Result<Seq<Seq<char>>, Seq<char>>,
    row: int,
    cs: Seq<usize>,
    ms: Seq<ColumnMapping>,
    options: ImportOptions,
    today: Seq<char>,
    titre_key: Seq<char>,
    sk: Option<Seq<char>>,
) -> bool {
    let prefix = "ligne "@ + crate::text::decimal((row + 2) as nat) + " : "@;
    match record {
        Err(e) => a == ImportState { errors: b.errors.push(prefix + e), ..b },
        Ok(r) => exists|fields1: StrMap<Value>, schema1: Schema, fields2: StrMap<Value>, series1: Seq<Series>, item: Item|
            #[trigger] row_step_via(numf, b, a, r, prefix, cs, ms, options, today, titre_key, sk, fields1,
                schema1, fields2, series1, item),
    }
}

/// The state before the first record: nothing imported yet; the keys of
/// the existing items are known when duplicates are skipped.
pub open spec fn start_state(schema: Schema, counters: Counters, series: Seq<Series>, existing: Seq<Item>, skip: bool) -> ImportState {
    ImportState {
        schema,
        counters,
        series,
        items: Seq::empty(),
        total_rows: 0,
        skipped: 0,
        created: 0,
        errors: Seq::empty(),
        genres: Seq::empty(),
        dirty: false,
        seen_ean: if skip { eans_of(existing) } else { Seq::empty() },
        seen_triple: if skip { triples_of(schema.fields@, existing) } else { Seq::empty() },
    }
}

/// The column that each mapping reads (`usize::MAX` for none).
pub open spec fn mapped_columns(headers: Seq<Seq<char>>, ms: Seq<ColumnMapping>) -> Seq<usize> {
    Seq::new(
        ms.len(),
        |q: int| match column_of(headers.map_values(|x: Seq<char>| clean_header(x)), ms[q].column@) {
            Some(c) => c as usize,
            None => usize::MAX,
        },
    )
}

/// The key of the series field, if the schema has one.
pub open spec fn serie_key_of(fs: Seq<FieldDef>) -> Option<Seq<char>> {
    match series_field_spec(fs) {
        Some(f) => Some(f.key@),
        None => None,
    }
}

/// Record `i` takes the import from state `i` to state `i + 1`.
pub open spec fn step_at(
    numf: spec_fn(Seq<char>) -> Option<ValueV>,
    sts: Seq<ImportState>,
    rs: Seq<Result<Seq<Seq<char>>, Seq<char>>>,
    i: int,
    cs: Seq<usize>,
    ms: Seq<ColumnMapping>,
    options: ImportOptions,
    today: Seq<char>,
    titre_key: Seq<char>,
    sk: Option<Seq<char>>,
) -> bool {
    row_step(numf, sts[i], sts[i + 1], rs[i], i, cs, ms, options, today, titre_key, sk)
}

/// The import went through the states `sts`, one record at a time, and
/// `res` is the last of them, with the series and the new select values
/// sorted.
pub open spec fn steps_through(
    numf: spec_fn(Seq<char>) -> Option<ValueV>,
    sts: Seq<ImportState>,
    old_schema: Schema,
    new_schema: Schema,
    old_counters: Counters,
    new_counters: Counters,
    series: Seq<Series>,
    existing: Seq<Item>,
    table: (Result<Seq<Seq<char>>, Seq<char>>, Seq<Result<Seq<Seq<char>>, Seq<char>>>),
    ms: Seq<ColumnMapping>,
    options: ImportOptions,
    today: Seq<char>,
    res: ImportResult,
) -> bool {
    let rs = table.1;
    let cs = mapped_columns(table.0->Ok_0, ms);
    let titre_key = title_field_spec(old_schema.fields@).unwrap().key@;
    let sk = serie_key_of(old_schema.fields@);
    let z = sts.last();
    &&& sts.len() == rs.len() + 1
    &&& sts[0] == start_state(old_schema, old_counters, series, existing, options.skip_duplicates)
    &&& forall|i: int| 0 <= i < rs.len() ==> #[trigger] step_at(numf, sts, rs, i, cs, ms, options, today, titre_key, sk)
    &&& z.schema == new_schema
    &&& z.counters == new_counters
    &&& z.items == res.items@
    &&& res.report.total_rows == z.total_rows
    &&& res.report.skipped_duplicates == z.skipped
    &&& res.report.series_created == z.created
    &&& views(res.report.errors@) == z.errors
    &&& views(res.report.genres_added@).to_set() == z.genres.to_set()
    &&& res.series@.to_multiset() == z.series.to_multiset()
    &&& res.schema_changed == z.dirty
}

/// Record by record, what an import that succeeds does, for a `numf` that
/// tells what the number reader returns.
pub open spec fn import_steps(
    numf: spec_fn(Seq<char>) -> Option<ValueV>,
    old_schema: Schema,
    new_schema: Schema,
    old_counters: Counters,
    new_counters: Counters,
    series: Seq<Series>,
    existing: Seq<Item>,
    table: (Result<Seq<Seq<char>>, Seq<char>>, Seq<Result<Seq<Seq<char>>, Seq<char>>>),
    ms: Seq<ColumnMapping>,
    options: ImportOptions,
    today: Seq<char>,
    r: Result<ImportResult, String>,
) -> bool {
    r is Ok ==> exists|sts: Seq<ImportState>| #[trigger] steps_through(numf, sts, old_schema, new_schema, old_counters,
        new_counters, series, existing, table, ms, options, today, r->Ok_0)
}

/// The fields that `row_inv` describes are `row_fields`.
pub proof fn lemma_row_fields(
    fs: Seq<FieldDef>,
    fv: Map<Seq<char>, ValueV>,
    rec: Seq<Seq<char>>,
    cs: Seq<usize>,
    ms: Seq<ColumnMapping>,
    numf: spec_fn(Seq<char>) -> Option<ValueV>,
)
    requires
        forall|k: Seq<char>|
            #![trigger fv.dom().contains(k)]
            #![trigger giver(fs, rec, cs, ms, numf, ms.len() as int, k)]
            fv.dom().contains(k) <==> giver(fs, rec, cs, ms, numf, ms.len() as int, k) is Some,
        forall|k: Seq<char>| #[trigger] giver(fs, rec, cs, ms, numf, ms.len() as int, k) matches Some(i) ==> fv[k]
            == given_value(fs, rec, cs, ms, numf, i, k),
    ensures
        fv == row_fields(fs, rec, cs, ms, numf),
{
    assert(fv =~= row_fields(fs, rec, cs, ms, numf));
}

/// A readable record whose states and intermediate values fit
/// `row_step_via` takes the import one `row_step`.
proof fn lemma_row_step(
    numf: spec_fn(Seq<char>) -> Option<ValueV>,
    b: ImportState,
    a: ImportState,
    record: Result<Seq<Seq<char>>, Seq<char>>,
    row: int,
    rec: Seq<Seq<char>>,
    prefix: Seq<char>,
    cs: Seq<usize>,
    ms: Seq<ColumnMapping>,
    options: ImportOptions,
    today: Seq<char>,
    titre_key: Seq<char>,
    sk: Option<Seq<char>>,
    fields1: StrMap<Value>,
    schema1: Schema,
    fields2: StrMap<Value>,
    series1: Seq<Series>,
    item: Item,
)
    requires
        record == Ok::<Seq<Seq<char>>, Seq<char>>(rec),
        prefix == "ligne "@ + crate::text::decimal((row + 2) as nat) + " : "@,
        row_step_via(numf, b, a, rec, prefix, cs, ms, options, today, titre_key, sk, fields1, schema1, fields2, series1,
            item),
    ensures
        row_step(numf, b, a, record, row, cs, ms, options, today, titre_key, sk),
{
    assert(exists|f1: StrMap<Value>, s1: Schema, f2: StrMap<Value>, se1: Seq<Series>, it: Item|
        #[trigger] row_step_via(numf, b, a, rec, prefix, cs, ms, options, today, titre_key, sk, f1, s1, f2, se1, it));
    assert(record is Ok);
    assert(record->Ok_0 == rec);
}

/// Imports one record.
#[verifier::rlimit(60)]
fn import_row<F: Fn(&str) -> Option<Value>>(
    schema: &mut Schema,
    counters: &mut Counters,
    series: &mut Vec<Series>,
    report: &mut ImportReport,
    items: &mut Vec<Item>,
    seen_ean: &mut Vec<String>,
    seen_triple: &mut Vec<String>,
    dirty: &mut bool,
    record: &Result<Vec<String>, String>,
    row: usize,
    cols: &Vec<usize>,
    mappings: &[ColumnMapping],
    options: &ImportOptions,
    today: &str,
    number: &F,
    titre_key: &String,
    serie_key: &Option<String>,
    Ghost(s0): Ghost<Schema>,
    Ghost(c0): Ghost<Counters>,
    Ghost(series0): Ghost<Seq<Series>>,
    Ghost(existing): Ghost<Seq<Item>>,
    Ghost(remaining): Ghost<int>,
    Ghost(sk): Ghost<Option<Seq<char>>>,
)
    requires
        remaining >= 1,
        row < usize::MAX,
        cols@.len() == mappings@.len(),
        forall|s: &str| number.requires((s,)),
        old(report).total_rows <= row,
        old(report).series_created <= row,
        sk == (if *serie_key is Some { Some(serie_key.unwrap()@) } else { None::<Seq<char>> }),
        titre_key@ == title_field_spec(s0.fields@).unwrap().key@,
        run_inv(s0, *old(schema), c0, *old(counters), remaining, old(items)@, *old(report), series0, old(series)@,
            *old(dirty), today@, titre_key@, sk, options.skip_duplicates, existing, views(old(seen_ean)@),
            views(old(seen_triple)@)),
    ensures
        final(report).total_rows == old(report).total_rows + if *record is Ok { 1usize } else { 0usize },
        final(report).series_created <= old(report).series_created + 1,
        run_inv(s0, *final(schema), c0, *final(counters), remaining - 1, final(items)@, *final(report), series0,
            final(series)@, *final(dirty), today@, titre_key@, sk, options.skip_duplicates, existing,
            views(final(seen_ean)@), views(final(seen_triple)@)),
        forall|numf: spec_fn(Seq<char>) -> Option<ValueV>| reads_numbers(*number, numf) ==> row_step(
            numf,
            state_of(*old(schema), *old(counters), old(series)@, old(items)@, *old(report), *old(dirty),
                old(seen_ean)@, old(seen_triple)@),
            state_of(*final(schema), *final(counters), final(series)@, final(items)@, *final(report), *final(dirty),
                final(seen_ean)@, final(seen_triple)@),
            row_view(*record),
            row as int,
            cols@,
            mappings@,
            *options,
            today@,
            titre_key@,
            sk,
        ),
{
    let ghost b = state_of(*schema, *counters, series@, items@, *report, *dirty, seen_ean@, seen_triple@);
    let prefix = line_prefix((row as u128) + 2);
    assert(prefix@ == "ligne "@ + crate::text::decimal((row as int + 2) as nat) + " : "@);
    let rec = match record {
        Ok(r) => r,
        Err(e) => {
            let mut msg = prefix;
            msg.append(e.as_str());
            let ghost e0 = report.errors@;
            let ghost m = msg@;
            report.errors.push(msg);
            proof {
                assert(views(report.errors@) =~= views(e0).push(m));
            }
            return;
        },
    };
    assert(row_view(*record) == Ok::<Seq<Seq<char>>, Seq<char>>(views(rec@)));
    report.total_rows = report.total_rows + 1;
    let ghost sb = schema.fields@;
    let data = map_row(schema, cols, rec, mappings, &prefix, number, report, dirty);
    let ghost schema1 = *schema;
    let ghost fields1 = data.fields;
    let ghost sname = opt_string(data.serie_name);
    let ghost series0b = series@;
    proof {
        lemma_schema_grows_trans(s0.fields@, sb, schema.fields@);
        if serie_key is Some {
            lemma_field_spec_grows(sb, schema.fields@, serie_key.unwrap()@);
        }
        assert forall|k: int| 0 <= k < items@.len() implies keys_in_schema((#[trigger] items@[k]).fields, schema.fields@) by {
            assert forall|x: Seq<char>| #[trigger] items@[k].fields.view().dom().contains(x) implies field_spec(schema.fields@, x) is Some by {
                assert(imported_item(items@[k], s0.id_prefix@, (c0.next_id + k + 1) as nat, today@, sb, titre_key@));
                lemma_field_spec_grows(sb, schema.fields@, x);
            }
        }
    }
    let mut fields = data.fields;
    let ghost fb = fields;
    attach_series(
        &mut fields,
        data.serie_name,
        data.serie_tome,
        titre_key.as_str(),
        serie_key.as_ref(),
        series,
        &mut report.series_created,
        options,
    );
    let ghost fields2 = fields;
    let ghost series1 = series@;
    proof {
        assert forall|x: Seq<char>| #[trigger] fields.view().dom().contains(x) implies field_spec(schema.fields@, x) is Some by {
            if !fb.view().dom().contains(x) {
                assert(x == serie_key.unwrap()@);
            }
        }
        assert(series@.take(series0.len() as int) =~= series@.take(series0b.len() as int).take(series0.len() as int));
        assert(attached(fields1, fields2, sname, data.serie_tome, titre_key@, sk, series0b, series1, *options));
    }
    if is_title_missing(&fields, titre_key.as_str()) {
        let mut msg = prefix;
        msg.append("titre manquant, ligne ignorée");
        let ghost e0 = report.errors@;
        let ghost m = msg@;
        report.errors.push(msg);
        proof {
            assert(views(report.errors@) =~= views(e0).push(m));
            let ghost a = state_of(*schema, *counters, series@, items@, *report, *dirty, seen_ean@, seen_triple@);
            let ghost it: Item = arbitrary();
            assert forall|numf: spec_fn(Seq<char>) -> Option<ValueV>| reads_numbers(*number, numf) implies row_step(
                numf, b, a, row_view(*record), row as int, cols@, mappings@, *options, today@, titre_key@, sk) by {
                lemma_row_fields(sb, fields_view(fields1), views(rec@), cols@, mappings@, numf);
                assert(row_step_via(numf, b, a, views(rec@), prefix@, cols@, mappings@, *options, today@, titre_key@,
                    sk, fields1, schema1, fields2, series1, it));
                lemma_row_step(numf, b, a, row_view(*record), row as int, views(rec@), prefix@, cols@, mappings@, *options,
                    today@, titre_key@, sk, fields1, schema1, fields2, series1, it);
            }
        }
        return;
    }
    if options.skip_duplicates {
        proof {
            lemma_dedup_grows(s0.fields@, schema.fields@, fields);
        }
        let dup = check_duplicate(schema, &fields, seen_ean, seen_triple);
        if dup {
            report.skipped_duplicates = report.skipped_duplicates + 1;
            proof {
                let ghost a = state_of(*schema, *counters, series@, items@, *report, *dirty, seen_ean@, seen_triple@);
                let ghost it: Item = arbitrary();
                assert forall|numf: spec_fn(Seq<char>) -> Option<ValueV>| reads_numbers(*number, numf) implies row_step(
                    numf, b, a, row_view(*record), row as int, cols@, mappings@, *options, today@, titre_key@, sk) by {
                    lemma_row_fields(sb, fields_view(fields1), views(rec@), cols@, mappings@, numf);
                    assert(row_step_via(numf, b, a, views(rec@), prefix@, cols@, mappings@, *options, today@,
                        titre_key@, sk, fields1, schema1, fields2, series1, it));
                    lemma_row_step(numf, b, a, row_view(*record), row as int, views(rec@), prefix@, cols@, mappings@,
                        *options, today@, titre_key@, sk, fields1, schema1, fields2, series1, it);
                }
            }
            return;
        }
    }
    let ghost ib = items@;
    let ghost cb = *counters;
    let item = new_item(schema, counters, fields, today);
    let ghost it = item;
    items.push(item);
    report.imported = report.imported + 1;
    proof {
        assert(items@.take(ib.len() as int) =~= ib);
        assert(items@[ib.len() as int] == item);
        assert forall|k: int| 0 <= k < items@.len() implies imported_item(#[trigger] items@[k], s0.id_prefix@, (c0.next_id + k + 1) as nat, today@, schema.fields@, titre_key@) by {
            if k < ib.len() {
                assert(items@[k] == ib[k]);
            }
        }
        assert forall|x: Seq<char>| #[trigger] counters.cotes.view().dom().contains(x) implies counters.cotes.view()[x] + (remaining - 1) < u64::MAX by {
            if cb.cotes.view().dom().contains(x) {
                assert(cb.cotes.view()[x] + remaining < u64::MAX);
            }
        }
        if options.skip_duplicates {
            lemma_dup_step(s0.fields@, existing, ib, item, views(old(seen_ean)@), views(old(seen_triple)@), views(seen_ean@), views(seen_triple@));
        }
        let ghost a = state_of(*schema, *counters, series@, items@, *report, *dirty, seen_ean@, seen_triple@);
        assert forall|numf: spec_fn(Seq<char>) -> Option<ValueV>| reads_numbers(*number, numf) implies row_step(
            numf, b, a, row_view(*record), row as int, cols@, mappings@, *options, today@, titre_key@, sk) by {
            lemma_row_fields(sb, fields_view(fields1), views(rec@), cols@, mappings@, numf);
            assert(row_step_via(numf, b, a, views(rec@), prefix@, cols@, mappings@, *options, today@, titre_key@,
                sk, fields1, schema1, fields2, series1, it));
            lemma_row_step(numf, b, a, row_view(*record), row as int, views(rec@), prefix@, cols@, mappings@, *options,
                today@, titre_key@, sk, fields1, schema1, fields2, series1, it);
        }
    }
}

/// Adding a row that repeats no known key keeps the known keys and the
/// absence of duplicates up to date.
proof fn lemma_dup_step(
    fs: Seq<FieldDef>,
    existing: Seq<Item>,
    ib: Seq<Item>,
    item: Item,
    e0: Seq<Seq<char>>,
    t0: Seq<Seq<char>>,
    e1: Seq<Seq<char>>,
    t1: Seq<Seq<char>>,
)
    requires
        t0 == triples_of(fs, existing) + triples_of(fs, ib),
        e0 == eans_of(existing) + eans_of(ib),
        no_duplicates(fs, existing, ib),
        !t0.contains(dedup_triple(fs, item.fields)),
        dedup_ean(item.fields) matches Some(e) ==> !e0.contains(e),
        t1 == t0.push(dedup_triple(fs, item.fields)),
        e1 == match dedup_ean(item.fields) {
            Some(e) => e0.push(e),
            None => e0,
        },
    ensures
        t1 == triples_of(fs, existing) + triples_of(fs, ib.push(item)),
        e1 == eans_of(existing) + eans_of(ib.push(item)),
        no_duplicates(fs, existing, ib.push(item)),
{
    let items = ib.push(item);
    assert(triples_of(fs, items) =~= triples_of(fs, ib).push(dedup_triple(fs, item.fields)));
    items.lemma_filter_map_take_succ(|it: Item| dedup_ean(it.fields), ib.len() as int);
    assert(items.take(ib.len() as int) =~= ib);
    assert(items.take(ib.len() as int + 1) =~= items);
    assert(t1 =~= triples_of(fs, existing) + triples_of(fs, items));
    assert(e1 =~= eans_of(existing) + eans_of(items));
    assert forall|k: int| 0 <= k < items.len() implies {
        &&& !triples_of(fs, existing).contains(dedup_triple(fs, (#[trigger] items[k]).fields))
        &&& !triples_of(fs, items.take(k)).contains(dedup_triple(fs, items[k].fields))
        &&& (dedup_ean(items[k].fields) matches Some(e) ==> !eans_of(existing).contains(e) && !eans_of(items.take(k)).contains(e))
    } by {
        if k < ib.len() {
            assert(items[k] == ib[k]);
            assert(items.take(k) =~= ib.take(k));
        } else {
            assert(items.take(k) =~= ib);
            if triples_of(fs, existing).contains(dedup_triple(fs, item.fields)) {
                let w = choose|w: int| 0 <= w < triples_of(fs, existing).len() && triples_of(fs, existing)[w] == dedup_triple(fs, item.fields);
                assert(t0[w] == dedup_triple(fs, item.fields));
            }
            if triples_of(fs, ib).contains(dedup_triple(fs, item.fields)) {
                let w = choose|w: int| 0 <= w < triples_of(fs, ib).len() && triples_of(fs, ib)[w] == dedup_triple(fs, item.fields);
                assert(t0[triples_of(fs, existing).len() + w] == dedup_triple(fs, item.fields));
            }
            match dedup_ean(item.fields) {
                Some(e) => {
                    if eans_of(existing).contains(e) {
                        let w = choose|w: int| 0 <= w < eans_of(existing).len() && eans_of(existing)[w] == e;
                        assert(e0[w] == e);
                    }
                    if eans_of(ib).contains(e) {
                        let w = choose|w: int| 0 <= w < eans_of(ib).len() && eans_of(ib)[w] == e;
                        assert(e0[eans_of(existing).len() + w] == e);
                    }
                },
                None => {},
            }
        }
    }
}

/// The duplicate keys of the items already in the collection.
fn known_keys(schema: &Schema, existing: &[Item]) -> (r: (Vec<String>, Vec<String>))
    requires
        forall|k: int| 0 <= k < existing@.len() ==> (#[trigger] existing@[k]).fields.wf(),
    ensures
        views(r.1@) == triples_of(schema.fields@, existing@),
        views(r.0@) == eans_of(existing@),
{
    let mut seen_ean: Vec<String> = Vec::new();
    let mut seen_triple: Vec<String> = Vec::new();
    let mut k: usize = 0;
    while k < existing.len()
        invariant
            k <= existing@.len(),
            forall|q: int| 0 <= q < existing@.len() ==> (#[trigger] existing@[q]).fields.wf(),
            views(seen_triple@) == triples_of(schema.fields@, existing@.take(k as int)),
            views(seen_ean@) == eans_of(existing@.take(k as int)),
        decreases existing@.len() - k,
    {
        let ghost t0 = seen_triple@;
        let ghost e0 = seen_ean@;
        let (ean, triple) = dedup_keys(schema, &existing[k].fields);
        let ghost tv = triple@;
        seen_triple.push(triple);
        assert(existing@.take(k + 1) =~= existing@.take(k as int).push(existing@[k as int]));
        assert(views(seen_triple@) =~= views(t0).push(tv));
        assert(triples_of(schema.fields@, existing@.take(k + 1)) =~= triples_of(schema.fields@, existing@.take(k as int)).push(tv));
        proof {
            existing@.lemma_filter_map_take_succ(|it: Item| dedup_ean(it.fields), k as int);
        }
        match ean {
            Some(e) => {
                seen_ean.push(e);
                assert(views(seen_ean@) =~= eans_of(existing@.take(k + 1)));
            },
            None => {
                assert(views(seen_ean@) =~= eans_of(existing@.take(k + 1)));
            },
        }
        k = k + 1;
    }
    assert(existing@.take(existing@.len() as int) =~= existing@);
    (seen_ean, seen_triple)
}

/// The number of records read without error.
pub open spec fn ok_rows(rs: Seq<Result<Seq<Seq<char>>, Seq<char>>>) -> nat
    decreases rs.len(),
{
    if rs.len() == 0 {
        0
    } else {
        ok_rows(rs.drop_last()) + if rs.last() is Ok { 1nat } else { 0nat }
    }
}

pub proof fn lemma_ok_rows(rs: Seq<Result<Vec<String>, String>>)
    ensures
        ok_count(rs) == ok_rows(rows_view(rs)),
    decreases rs.len(),
{
    if rs.len() > 0 {
        lemma_ok_rows(rs.drop_last());
        assert(rows_view(rs.drop_last()) =~= rows_view(rs).drop_last());
    }
}

/// What an import of a table does (see `import_table`).
pub open spec fn import_spec(
    old_schema: Schema,
    new_schema: Schema,
    old_counters: Counters,
    new_counters: Counters,
    series: Seq<Series>,
    existing: Seq<Item>,
    table: (Result<Seq<Seq<char>>, Seq<char>>, Seq<Result<Seq<Seq<char>>, Seq<char>>>),
    mappings: Seq<ColumnMapping>,
    options: ImportOptions,
    today: Seq<char>,
    r: Result<ImportResult, String>,
) -> bool {
    match r {
        Err(e) => {
            &&& new_schema == old_schema
            &&& new_counters == old_counters
            &&& if title_field_spec(old_schema.fields@) is None {
                e@ == "le schéma n'a pas de champ titre"@
            } else {
                match table.0 {
                    Err(h) => e@ == h,
                    Ok(h) => match missing_column(h.map_values(|x: Seq<char>| clean_header(x)), mappings) {
                        Some(i) => e@ == "colonne « "@ + mappings[i].column@ + " » absente du CSV"@,
                        None => false,
                    },
                }
            }
        },
        Ok(res) => {
            let titre_key = title_field_spec(old_schema.fields@).unwrap().key@;
            &&& title_field_spec(old_schema.fields@) is Some
            &&& table.0 is Ok
            &&& missing_column(table.0->Ok_0.map_values(|x: Seq<char>| clean_header(x)), mappings) is None
            &&& new_schema.name == old_schema.name
            &&& new_schema.id_prefix == old_schema.id_prefix
            &&& new_schema.source == old_schema.source
            &&& new_schema.cote == old_schema.cote
            &&& schema_grows(old_schema.fields@, new_schema.fields@)
            &&& (res.schema_changed || new_schema.fields@ == old_schema.fields@)
            &&& new_counters.next_id == old_counters.next_id + res.items@.len()
            &&& new_counters.cotes.wf()
            &&& res.report.imported == res.items@.len()
            &&& res.report.total_rows == ok_rows(table.1)
            &&& res.report.imported + res.report.skipped_duplicates <= res.report.total_rows
            &&& (forall|k: int| 0 <= k < res.items@.len() ==> imported_item(
                #[trigger] res.items@[k],
                old_schema.id_prefix@,
                (old_counters.next_id + k + 1) as nat,
                today,
                new_schema.fields@,
                titre_key,
            ))
            &&& res.series@.len() == series.len() + res.report.series_created
            &&& (forall|x: Series| series.contains(x) ==> res.series@.contains(x))
            &&& sorted_by_name(res.series@)
            &&& strictly_sorted(views(res.report.genres_added@))
            &&& (options.skip_duplicates ==> no_duplicates(old_schema.fields@, existing, res.items@))
        },
    }
}

/// An import that went through states `sts` satisfies `import_steps`.
proof fn lemma_import_steps(
    numf: spec_fn(Seq<char>) -> Option<ValueV>,
    sts: Seq<ImportState>,
    old_schema: Schema,
    new_schema: Schema,
    old_counters: Counters,
    new_counters: Counters,
    series: Seq<Series>,
    existing: Seq<Item>,
    table: (Result<Seq<Seq<char>>, Seq<char>>, Seq<Result<Seq<Seq<char>>, Seq<char>>>),
    ms: Seq<ColumnMapping>,
    options: ImportOptions,
    today: Seq<char>,
    res: ImportResult,
)
    requires
        steps_through(numf, sts, old_schema, new_schema, old_counters, new_counters, series, existing, table, ms,
            options, today, res),
    ensures
        import_steps(numf, old_schema, new_schema, old_counters, new_counters, series, existing, table, ms, options,
            today, Ok(res)),
{
    let r = Ok::<ImportResult, String>(res);
    assert(r->Ok_0 == res);
    assert(steps_through(numf, sts, old_schema, new_schema, old_counters, new_counters, series, existing, table, ms,
            options, today, r->Ok_0));
    assert(exists|t: Seq<ImportState>| #[trigger] steps_through(numf, t, old_schema, new_schema, old_counters,
        new_counters, series, existing, table, ms, options, today, res));
}

/// Imports the records of a read CSV into a collection. `existing` are the
/// items already in the collection (for duplicates), `today` the date of
/// the new items, `number` reads the text of a number field (`None` when
/// it is not a number).
///
/// Record by record (`import_steps`, `row_step`): an unreadable record adds
/// its message; a readable one is mapped, may add select options, is
/// linked to its series, and is then skipped (no title), counted as a
/// duplicate, or made into the next item.
///
/// Errors, before anything is imported: a schema without title field, an
/// unreadable header, a mapped column missing from the CSV.
#[verifier::rlimit(40)]
pub fn import_table<F: Fn(&str) -> Option<Value>>(
    schema: &mut Schema,
    series: Vec<Series>,
    counters: &mut Counters,
    existing: &[Item],
    headers: Result<Vec<String>, String>,
    records: Vec<Result<Vec<String>, String>>,
    mappings: &[ColumnMapping],
    options: &ImportOptions,
    today: &str,
    number: &F,
) -> (r: Result<ImportResult, String>)
    requires
        forall|s: &str| number.requires((s,)),
        counters_margin(*old(counters), records@.len() as int),
        forall|k: int| 0 <= k < existing@.len() ==> (#[trigger] existing@[k]).fields.wf(),
    ensures
        import_spec(*old(schema), *final(schema), *old(counters), *final(counters), series@, existing@,
            (row_view(headers), rows_view(records@)), mappings@, *options, today@, r),
        forall|numf: spec_fn(Seq<char>) -> Option<ValueV>| reads_numbers(*number, numf) ==> import_steps(numf,
            *old(schema), *final(schema), *old(counters), *final(counters), series@, existing@,
            (row_view(headers), rows_view(records@)), mappings@, *options, today@, r),
{
    let titre_key = match schema.title_field() {
        Some(f) => f.key.clone(),
        None => return Err(owned("le schéma n'a pas de champ titre")),
    };
    let ghost s0 = *schema;
    let ghost c0 = *counters;
    let serie_key: Option<String> = match series_field(schema) {
        Some(i) => Some(schema.fields[i].key.clone()),
        None => None,
    };
    let raw_headers = match headers {
        Ok(h) => h,
        Err(e) => return Err(e),
    };
    let hs = clean_headers(&raw_headers);
    match check_mappings(&hs, mappings) {
        Ok(()) => {},
        Err(e) => return Err(e),
    }
    // Known keys, so that an import can be replayed without harm.
    let (seen_ean, seen_triple) = if options.skip_duplicates {
        known_keys(schema, existing)
    } else {
        (Vec::new(), Vec::new())
    };
    let mut seen_ean = seen_ean;
    let mut seen_triple = seen_triple;
    let ghost mc = mapped_columns(views(raw_headers@), mappings@);
    let mut cols: Vec<usize> = Vec::new();
    let mut q: usize = 0;
    while q < mappings.len()
        invariant
            q <= mappings@.len(),
            cols@.len() == q,
            mc == mapped_columns(views(raw_headers@), mappings@),
            views(hs@) == views(raw_headers@).map_values(|h: Seq<char>| clean_header(h)),
            forall|j: int| 0 <= j < q ==> cols@[j] == #[trigger] mc[j],
        decreases mappings@.len() - q,
    {
        let c = match column_index(&hs, mappings[q].column.as_str()) {
            Some(c) => c,
            None => usize::MAX,
        };
        cols.push(c);
        q = q + 1;
    }
    assert(cols@ =~= mc);
    let mut series = series;
    let ghost series0 = series@;
    let mut report = ImportReport::default();
    let mut items: Vec<Item> = Vec::new();
    let mut dirty = false;
    let ghost all = records@;
    let n = records.len();
    let ghost sk: Option<Seq<char>> = if serie_key is Some { Some(serie_key.unwrap()@) } else { None };
    proof {
        lemma_schema_grows_refl(s0.fields@);
        assert(series@.take(series0.len() as int) =~= series0);
        assert(items@.take(0) =~= items@);
        if serie_key is Some {
            let i = first(s0.fields@, |f: FieldDef| f.field_type == FieldType::SeriesRef).unwrap();
            crate::text::lemma_first_exists(s0.fields@, key_is(serie_key.unwrap()@), i);
        }
        assert(triples_of(s0.fields@, items@) =~= Seq::<Seq<char>>::empty());
        assert(eans_of(items@) =~= Seq::<Seq<char>>::empty());
        assert(triples_of(s0.fields@, existing@) + triples_of(s0.fields@, items@) =~= triples_of(s0.fields@, existing@));
        assert(eans_of(existing@) + eans_of(items@) =~= eans_of(existing@));
    }
    let ghost rv = rows_view(records@);
    let ghost mut sts: Seq<ImportState> = seq![state_of(*schema, *counters, series@, items@, report, dirty, seen_ean@, seen_triple@)];
    assert(sts[0] == start_state(s0, c0, series0, existing@, options.skip_duplicates)) by {
        assert(views(report.errors@) =~= Seq::<Seq<char>>::empty());
        assert(views(report.genres_added@) =~= Seq::<Seq<char>>::empty());
        if !options.skip_duplicates {
            assert(views(seen_ean@) =~= Seq::<Seq<char>>::empty());
            assert(views(seen_triple@) =~= Seq::<Seq<char>>::empty());
        }
    }
    let mut row: usize = 0;
    while row < records.len()
        invariant
            rv == rows_view(all),
            cols@ == mapped_columns(views(raw_headers@), mappings@),
            sts.len() == row + 1,
            sts[0] == start_state(s0, c0, series0, existing@, options.skip_duplicates),
            sts.last() == state_of(*schema, *counters, series@, items@, report, dirty, seen_ean@, seen_triple@),
            forall|i: int, numf: spec_fn(Seq<char>) -> Option<ValueV>|
                0 <= i < row && reads_numbers(*number, numf) ==> #[trigger] step_at(numf, sts, rv, i, cols@, mappings@,
                    *options, today@, titre_key@, sk),
            all == records@,
            n == all.len(),
            row <= n,
            cols@.len() == mappings@.len(),
            forall|s: &str| number.requires((s,)),
            titre_key@ == title_field_spec(s0.fields@).unwrap().key@,
            title_field_spec(s0.fields@) is Some,
            sk == (if serie_key is Some { Some(serie_key.unwrap()@) } else { None::<Seq<char>> }),
            report.total_rows == ok_count(all.take(row as int)),
            report.total_rows <= row,
            report.series_created <= row,
            run_inv(s0, *schema, c0, *counters, n - row, items@, report, series0, series@, dirty, today@, titre_key@, sk,
                options.skip_duplicates, existing@, views(seen_ean@), views(seen_triple@)),
        decreases n - row,
    {
        assert(all.take(row + 1).drop_last() =~= all.take(row as int));
        let ghost before = sts.last();
        import_row(schema, counters, &mut series, &mut report, &mut items, &mut seen_ean, &mut seen_triple, &mut dirty,
            &records[row], row, &cols, mappings, options, today, number, &titre_key, &serie_key,
            Ghost(s0), Ghost(c0), Ghost(series0), Ghost(existing@), Ghost(n - row), Ghost(sk));
        let ghost old_sts = sts;
        proof {
            sts = sts.push(state_of(*schema, *counters, series@, items@, report, dirty, seen_ean@, seen_triple@));
            assert(rv[row as int] == row_view(records@[row as int]));
            assert forall|i: int, numf: spec_fn(Seq<char>) -> Option<ValueV>|
                0 <= i < row + 1 && reads_numbers(*number, numf) implies #[trigger] step_at(numf, sts, rv, i, cols@,
                    mappings@, *options, today@, titre_key@, sk) by {
                if i < row {
                    assert(step_at(numf, old_sts, rv, i, cols@, mappings@, *options, today@, titre_key@, sk));
                    assert(sts[i] == old_sts[i]);
                    assert(sts[i + 1] == old_sts[i + 1]);
                } else {
                    assert(sts[i] == before);
                }
            }
        }
        row = row + 1;
    }
    assert(all.take(all.len() as int) =~= all);
    proof {
        lemma_ok_rows(records@);
    }
    let ghost sv = series@;
    let sorted_series = sort_series(series);
    proof {
        vstd::seq_lib::to_multiset_len(sv);
        vstd::seq_lib::to_multiset_len(sorted_series@);
        assert forall|x: Series| series0.contains(x) implies sorted_series@.contains(x) by {
            let w = choose|w: int| 0 <= w < series0.len() && series0[w] == x;
            assert(sv.take(series0.len() as int)[w] == x);
            assert(sv[w] == x);
            assert(sv.contains(x));
            vstd::seq_lib::to_multiset_contains(sv, x);
            vstd::seq_lib::to_multiset_contains(sorted_series@, x);
        }
    }
    let ghost last = sts.last();
    let genres = sort_dedup(report.genres_added);
    report.genres_added = genres;
    let res = ImportResult { report, items, series: sorted_series, schema_changed: dirty };
    proof {
        assert(title_field_spec(s0.fields@).unwrap().key@ == titre_key@);
        assert(serie_key_of(s0.fields@) == sk);
        assert forall|numf: spec_fn(Seq<char>) -> Option<ValueV>| reads_numbers(*number, numf) implies import_steps(numf,
            s0, *schema, c0, *counters, series0, existing@, (row_view(headers), rows_view(records@)), mappings@,
            *options, today@, Ok(res)) by {
            assert forall|i: int| 0 <= i < rv.len() implies #[trigger] step_at(numf, sts, rv, i, cols@, mappings@,
                *options, today@, titre_key@, sk) by {}
            assert(row_view(headers) == Ok::<Seq<Seq<char>>, Seq<char>>(views(raw_headers@)));
            assert(steps_through(numf, sts, s0, *schema, c0, *counters, series0, existing@,
                (row_view(headers), rows_view(records@)), mappings@, *options, today@, res));
            lemma_import_steps(numf, sts, s0, *schema, c0, *counters, series0, existing@,
                (row_view(headers), rows_view(records@)), mappings@, *options, today@, res);
        }
    }
    Ok(res)
}

} // verus!

verus! {

/// Whether counters have room for `n` more internal IDs and shelf marks.
pub fn has_margin(counters: &Counters, n: usize) -> (r: bool)
    requires
        counters.cotes.wf(),
    ensures
        r == counters_margin(*counters, n as int),
{
    if counters.next_id as u128 + n as u128 >= 0xffff_ffff_ffff_ffffu128 {
        return false;
    }
    let entries = &counters.cotes.entries;
    let mut i: usize = 0;
    while i < entries.len()
        invariant
            i <= entries@.len(),
            entries@ == counters.cotes.entries@,
            counters.cotes.wf(),
            forall|j: int| 0 <= j < i ==> (#[trigger] entries@[j]).1 + n < u64::MAX,
        decreases entries@.len() - i,
    {
        if entries[i].1 as u128 + n as u128 >= 0xffff_ffff_ffff_ffffu128 {
            proof {
                let k = entries@[i as int].0@;
                assert(crate::value::has_key(entries@, k));
                let t = crate::value::key_index(entries@, k);
                assert(t == i as int) by {
                    if t != i as int {
                        assert(entries@[t].0@ != entries@[i as int].0@);
                    }
                }
                assert(counters.cotes.view().dom().contains(k));
            }
            return false;
        }
        i = i + 1;
    }
    proof {
        assert forall|k: Seq<char>| #[trigger] counters.cotes.view().dom().contains(k) implies counters.cotes.view()[k] + n < u64::MAX by {
            let t = crate::value::key_index(entries@, k);
            assert(entries@[t].1 + n < u64::MAX);
        }
    }
    true
}

/// Imports the bytes of a CSV file (read with `read_csv`) into a
/// collection: `import_table` on what they hold. Nothing is imported, and
/// `None` comes back, when the counters have no room left for that many
/// records.
pub fn run_import<F: Fn(&str) -> Option<Value>>(
    schema: &mut Schema,
    series: Vec<Series>,
    counters: &mut Counters,
    existing: &[Item],
    bytes: &[u8],
    mappings: &[ColumnMapping],
    options: &ImportOptions,
    today: &str,
    number: &F,
) -> (r: Option<Result<ImportResult, String>>)
    requires
        forall|s: &str| number.requires((s,)),
        old(counters).cotes.wf(),
        forall|k: int| 0 <= k < existing@.len() ==> (#[trigger] existing@[k]).fields.wf(),
    ensures
        match r {
            None => !counters_margin(*old(counters), csv_table(bytes@).1.len() as int)
                && *final(schema) == *old(schema) && *final(counters) == *old(counters),
            Some(x) => counters_margin(*old(counters), csv_table(bytes@).1.len() as int)
                && import_spec(*old(schema), *final(schema), *old(counters), *final(counters), series@, existing@,
                    csv_table(bytes@), mappings@, *options, today@, x)
                && forall|numf: spec_fn(Seq<char>) -> Option<ValueV>| reads_numbers(*number, numf) ==> import_steps(
                    numf, *old(schema), *final(schema), *old(counters), *final(counters), series@, existing@,
                    csv_table(bytes@), mappings@, *options, today@, x),
        },
{
    let (headers, records) = read_csv(bytes);
    proof {
        assert(rows_view(records@).len() == records@.len());
    }
    if !has_margin(counters, records.len()) {
        return None;
    }
    Some(import_table(schema, series, counters, existing, headers, records, mappings, options, today, number))
}

} // verus!
