//! Bulk enrichment: completes the records of a collection from the open
//! catalogues (covers, missing fields), in the background and very slowly
//! to respect the public services. Replayable: records that need nothing
//! are skipped without any request.
//!
//! The loop itself (requests, pauses, files) is run by the caller; every
//! decision it takes is one of the functions below.
use vstd::prelude::*;
use crate::text::{
    all_digits, chars_of, is_ascii_digit, is_blank, is_digit, owned, push_char, str_eq, string_of,
    trim_spec, views,
};
use crate::value::{str_of, vview, StrMap, Value, ValueV};
use crate::model::{title_field_spec, FieldDef, FieldType, Item, Schema};
use crate::hydrate::{
    applied, candidate_to_fields, candidate_writes, cands, concat3, fields_view, opt_view, year4, year_prefix,
    Candidate, CandidateV,
};
use crate::import::fval;
use crate::text::first;

verus! {

/// The pause after every network request of a bulk enrichment, in
/// milliseconds: the public catalogues are spared (about 8 s per record).
pub const REQUEST_PAUSE_MS: u64 = 4000;

/// Where a bulk enrichment stands.
#[derive(Debug, Clone)]
pub struct EnrichProgress {
    pub running: bool,
    pub done: bool,
    pub cancel_requested: bool,
    pub collection: String,
    /// Records to examine in all.
    pub total: usize,
    pub processed: usize,
    /// Records where at least one field was completed.
    pub enriched: usize,
    /// Covers downloaded.
    pub covers: usize,
    /// Already complete, skipped without request.
    pub skipped: usize,
    /// Without EAN/ISBN: cannot be matched automatically.
    pub no_ean: usize,
    /// Unknown to the catalogues.
    pub not_found: usize,
    pub errors: usize,
    pub last_error: Option<String>,
    /// Title being processed (for display).
    pub current: String,
}

impl Default for EnrichProgress {
    fn default() -> (r: EnrichProgress)
        ensures
            !r.running && !r.done && !r.cancel_requested && r.collection@.len() == 0,
            r.total == 0 && r.processed == 0 && r.enriched == 0 && r.covers == 0,
            r.skipped == 0 && r.no_ean == 0 && r.not_found == 0 && r.errors == 0,
            r.last_error is None && r.current@.len() == 0,
    {
        EnrichProgress {
            running: false,
            done: false,
            cancel_requested: false,
            collection: String::new(),
            total: 0,
            processed: 0,
            enriched: 0,
            covers: 0,
            skipped: 0,
            no_ean: 0,
            not_found: 0,
            errors: 0,
            last_error: None,
            current: String::new(),
        }
    }
}

/// A field with nothing worth keeping: absent, null, blank text, empty list.
pub open spec fn is_empty_spec(v: Option<Value>) -> bool {
    match v {
        None => true,
        Some(Value::Null) => true,
        Some(Value::Str(s)) => trim_spec(s@).len() == 0,
        Some(Value::Array(a)) => a@.len() == 0,
        _ => false,
    }
}

pub fn is_empty_value(v: Option<&Value>) -> (r: bool)
    ensures
        r == is_empty_spec(crate::hydrate::deref_opt(v)),
{
    match v {
        None => true,
        Some(Value::Null) => true,
        Some(Value::Str(s)) => is_blank(s.as_str()),
        Some(Value::Array(a)) => a.len() == 0,
        _ => false,
    }
}

// ---------------------------------------------------------------------------
// Before the loop
// ---------------------------------------------------------------------------

/// What the loop needs from the schema.
#[derive(Debug)]
pub struct EnrichSetup {
    /// The hydration source of the collection (empty when none).
    pub source: String,
    /// The image field, where the cover goes.
    pub image_key: String,
    /// The title field (empty when none).
    pub title_key: String,
}

pub open spec fn source_of(schema: Schema) -> Seq<char> {
    match schema.source {
        Some(s) => s@,
        None => Seq::empty(),
    }
}

/// The position of the first image field.
fn first_image(schema: &Schema) -> (r: Option<usize>)
    ensures
        crate::text::opt_int(r) == first(schema.fields@, |f: FieldDef| f.field_type == FieldType::Image),
        r matches Some(k) ==> k < schema.fields@.len(),
{
    let ghost p = |f: FieldDef| f.field_type == FieldType::Image;
    let mut i: usize = 0;
    while i < schema.fields.len()
        invariant
            i <= schema.fields@.len(),
            p == (|f: FieldDef| f.field_type == FieldType::Image),
            forall|j: int| 0 <= j < i ==> !p(#[trigger] schema.fields@[j]),
        decreases schema.fields@.len() - i,
    {
        if schema.fields[i].field_type == FieldType::Image {
            proof {
                crate::text::lemma_first_some(schema.fields@, p, i as int);
            }
            return Some(i);
        }
        i = i + 1;
    }
    proof {
        crate::text::lemma_first_none(schema.fields@, p);
    }
    None
}

/// Checks that an enrichment can start: films need a TMDB key, and the
/// schema needs an image field.
pub fn enrich_setup(schema: &Schema, has_tmdb_key: bool) -> (r: Result<EnrichSetup, String>)
    ensures
        match r {
            Err(e) => if source_of(*schema) == "dvd"@ && !has_tmdb_key {
                e@ == "clé d'API TMDB non configurée — lancez une recherche « Scanner » sur un DVD pour la saisir"@
            } else {
                first(schema.fields@, |f: FieldDef| f.field_type == FieldType::Image) is None
                    && e@ == "le schéma n'a pas de champ image"@
            },
            Ok(s) => {
                &&& !(source_of(*schema) == "dvd"@ && !has_tmdb_key)
                &&& s.source@ == source_of(*schema)
                &&& first(schema.fields@, |f: FieldDef| f.field_type == FieldType::Image) matches Some(i)
                    && s.image_key@ == schema.fields@[i].key@
                &&& s.title_key@ == match title_field_spec(schema.fields@) {
                    Some(f) => f.key@,
                    None => Seq::empty(),
                }
            },
        },
{
    let source = match &schema.source {
        Some(s) => s.clone(),
        None => String::new(),
    };
    if str_eq(source.as_str(), "dvd") && !has_tmdb_key {
        return Err(owned("clé d'API TMDB non configurée — lancez une recherche « Scanner » sur un DVD pour la saisir"));
    }
    let image_key = match first_image(schema) {
        Some(k) => schema.fields[k].key.clone(),
        None => return Err(owned("le schéma n'a pas de champ image")),
    };
    let title_key = match schema.title_field() {
        Some(f) => f.key.clone(),
        None => String::new(),
    };
    Ok(EnrichSetup { source, image_key, title_key })
}

// ---------------------------------------------------------------------------
// One record
// ---------------------------------------------------------------------------

/// How a record is looked up.
#[derive(Debug)]
pub enum Lookup {
    /// Films: TMDB by title and year, strictly.
    Tmdb { titre: String, annee: Option<i64> },
    /// CDs: MusicBrainz by EAN or strict artist and title, with Discogs.
    Cd { ean: Option<String>, artiste: String, titre: String },
    /// Books and comics: the BNF by EAN.
    Bnf { ean: String },
}

/// What to do with a record.
#[derive(Debug)]
pub enum ItemPlan {
    /// Nothing to complete (cover, and genre when the schema wants one).
    Skip,
    /// Nothing to match it by.
    NoEan,
    Lookup(Lookup),
}

/// The title shown for a record: its title field, else its ID.
pub open spec fn item_title(fields: StrMap<Value>, title_key: Seq<char>, id: Seq<char>) -> Seq<char> {
    match fval(fields, title_key) {
        Some(v) => match str_of(v) {
            Some(t) => t,
            None => id,
        },
        None => id,
    }
}

/// The digits of a text.
pub open spec fn digits_of(s: Seq<char>) -> Seq<char>
    decreases s.len(),
{
    if s.len() == 0 {
        s
    } else if is_digit(s.last()) {
        digits_of(s.drop_last()).push(s.last())
    } else {
        digits_of(s.drop_last())
    }
}

/// The matching code of a record: the digits of its `ean` field (else
/// `isbn`), when there are 10 or 13 of them.
pub open spec fn item_ean(fields: StrMap<Value>) -> Option<Seq<char>> {
    let v = match fval(fields, "ean"@) {
        Some(x) => Some(x),
        None => fval(fields, "isbn"@),
    };
    match v {
        Some(x) => match str_of(x) {
            Some(t) => {
                let d = digits_of(t);
                if d.len() == 10 || d.len() == 13 { Some(d) } else { None }
            },
            None => None,
        },
        None => None,
    }
}

/// Law (a record is known by its ISBN when it has no EAN): a record
/// without an `ean` whose `isbn` text has 10 or 13 digits has those digits
/// as its code, and a book or comic looked up is looked up at the BNF by
/// them.
pub proof fn law_item_code_reads_isbn(fields: StrMap<Value>, t: String)
    requires
        !fields.view().dom().contains("ean"@),
        fields.view().dom().contains("isbn"@),
        fields.view()["isbn"@] == Value::Str(t),
        digits_of(t@).len() == 10 || digits_of(t@).len() == 13,
    ensures
        item_ean(fields) == Some(digits_of(t@)),
        forall|l: Lookup, source: Seq<char>, titre: Seq<char>|
            #[trigger] lookup_ok(l, source, fields, titre) && source != "dvd"@ && source != "cd"@ ==> (l matches Lookup::Bnf {
                ean,
            } && ean@ == digits_of(t@)),
{
}

/// The first artist of a CD record.
pub open spec fn item_artist(fields: StrMap<Value>) -> Seq<char> {
    match fval(fields, "artiste"@) {
        Some(Value::Array(a)) => if a@.len() > 0 {
            match str_of(a@[0]) {
                Some(t) => t,
                None => Seq::empty(),
            }
        } else {
            Seq::empty()
        },
        _ => Seq::empty(),
    }
}

/// The year of a film record (`date_sortie`).
pub open spec fn item_year(fields: StrMap<Value>) -> Option<i64> {
    match fval(fields, "date_sortie"@) {
        Some(v) => match str_of(v) {
            Some(t) => year4(t),
            None => None,
        },
        None => None,
    }
}

/// Whether a record needs nothing: a cover, and a genre when the schema's
/// shelf marks use one.
pub open spec fn complete(schema: Schema, fields: StrMap<Value>, image_key: Seq<char>) -> bool {
    &&& !is_empty_spec(fval(fields, image_key))
    &&& match schema.cote {
        Some(c) => !is_empty_spec(fval(fields, c.genre_field@)),
        None => true,
    }
}

pub open spec fn lookup_ok(l: Lookup, source: Seq<char>, fields: StrMap<Value>, titre: Seq<char>) -> bool {
    match l {
        Lookup::Tmdb { titre: t, annee } => source == "dvd"@ && t@ == titre && annee == item_year(fields),
        Lookup::Cd { ean, artiste, titre: t } => source == "cd"@ && opt_view(ean) == item_ean(fields)
            && artiste@ == item_artist(fields) && t@ == titre,
        Lookup::Bnf { ean } => source != "dvd"@ && source != "cd"@ && item_ean(fields) == Some(ean@),
    }
}

/// The digits of a text.
fn digits(s: &str) -> (r: Vec<char>)
    ensures
        r@ == digits_of(s@),
{
    let cs = chars_of(s);
    let mut out: Vec<char> = Vec::new();
    let mut i: usize = 0;
    while i < cs.len()
        invariant
            i <= cs@.len(),
            cs@ == s@,
            out@ == digits_of(cs@.take(i as int)),
        decreases cs@.len() - i,
    {
        assert(cs@.take(i + 1).drop_last() =~= cs@.take(i as int));
        if is_ascii_digit(cs[i]) {
            out.push(cs[i]);
        }
        i = i + 1;
    }
    assert(cs@.take(cs@.len() as int) =~= cs@);
    out
}

/// Decides what to do with a record. Returns the title shown while it is
/// processed, and the plan.
pub fn plan_item(setup: &EnrichSetup, schema: &Schema, item: &Item, id: &str) -> (r: (String, ItemPlan))
    requires
        item.fields.wf(),
    ensures
        r.0@ == item_title(item.fields, setup.title_key@, id@),
        match r.1 {
            ItemPlan::Skip => complete(*schema, item.fields, setup.image_key@),
            ItemPlan::NoEan => !complete(*schema, item.fields, setup.image_key@) && (if setup.source@ == "dvd"@ {
                r.0@.len() == 0
            } else {
                setup.source@ != "cd"@ && item_ean(item.fields) is None
            }),
            ItemPlan::Lookup(l) => !complete(*schema, item.fields, setup.image_key@)
                && !(setup.source@ == "dvd"@ && r.0@.len() == 0)
                && lookup_ok(l, setup.source@, item.fields, r.0@),
        },
{
    let titre = match item.fields.get(setup.title_key.as_str()) {
        Some(v) => match v.as_str() {
            Some(t) => t.clone(),
            None => owned(id),
        },
        None => owned(id),
    };
    let cover_missing = is_empty_value(item.fields.get(setup.image_key.as_str()));
    let genre_missing = match &schema.cote {
        Some(c) => is_empty_value(item.fields.get(c.genre_field.as_str())),
        None => false,
    };
    if !cover_missing && !genre_missing {
        return (titre, ItemPlan::Skip);
    }
    let ean_value = match item.fields.get("ean") {
        Some(x) => Some(x),
        None => item.fields.get("isbn"),
    };
    let ean: Option<String> = match ean_value {
        Some(x) => match x.as_str() {
            Some(t) => {
                let d = digits(t.as_str());
                if d.len() == 10 || d.len() == 13 { Some(string_of(&d)) } else { None }
            },
            None => None,
        },
        None => None,
    };
    if str_eq(setup.source.as_str(), "dvd") {
        let annee = match item.fields.get("date_sortie") {
            Some(v) => match v.as_str() {
                Some(t) => year_prefix(t.as_str()),
                None => None,
            },
            None => None,
        };
        if titre.as_str().is_empty() {
            return (titre, ItemPlan::NoEan);
        }
        let t = titre.clone();
        return (titre, ItemPlan::Lookup(Lookup::Tmdb { titre: t, annee }));
    }
    if str_eq(setup.source.as_str(), "cd") {
        let artiste = match item.fields.get("artiste") {
            Some(Value::Array(a)) => if a.len() > 0 {
                match a[0].as_str() {
                    Some(t) => t.clone(),
                    None => String::new(),
                }
            } else {
                String::new()
            },
            _ => String::new(),
        };
        let t = titre.clone();
        return (titre, ItemPlan::Lookup(Lookup::Cd { ean, artiste, titre: t }));
    }
    match ean {
        Some(e) => (titre, ItemPlan::Lookup(Lookup::Bnf { ean: e })),
        None => (titre, ItemPlan::NoEan),
    }
}

/// The MusicBrainz request of a CD record.
#[derive(Debug)]
pub enum MbRequest {
    /// By barcode.
    Barcode(String),
    /// Strict artist and title match.
    Strict { artiste: String, titre: String },
    /// Nothing to ask.
    Nothing,
}

/// The requests of a CD record: MusicBrainz by EAN, else strictly by artist
/// and title when both are known; Discogs (with a token) when artist and
/// title are known.
pub fn cd_requests(ean: &Option<String>, artiste: &str, titre: &str, has_discogs_token: bool) -> (r: (MbRequest, bool))
    ensures
        match r.0 {
            MbRequest::Barcode(e) => ean is Some && e@ == ean.unwrap()@,
            MbRequest::Strict { artiste: a, titre: t } => ean is None && artiste@.len() > 0 && titre@.len() > 0
                && a@ == artiste@ && t@ == titre@,
            MbRequest::Nothing => ean is None && (artiste@.len() == 0 || titre@.len() == 0),
        },
        r.1 == (has_discogs_token && artiste@.len() > 0 && titre@.len() > 0),
{
    let mb = match ean {
        Some(e) => MbRequest::Barcode(e.clone()),
        None => if !artiste.is_empty() && !titre.is_empty() {
            MbRequest::Strict { artiste: owned(artiste), titre: owned(titre) }
        } else {
            MbRequest::Nothing
        },
    };
    (mb, has_discogs_token && !artiste.is_empty() && !titre.is_empty())
}

/// What the lookups of a record gave.
#[derive(Debug)]
pub enum Outcome {
    /// Nothing to match it by.
    NoEan,
    Failed(String),
    Found(Vec<Candidate>),
}

pub open spec fn take1(s: Seq<CandidateV>) -> Seq<CandidateV> {
    if s.len() > 0 { s.take(1) } else { s }
}

/// The answers for a CD: the best MusicBrainz candidate then the best
/// Discogs one. No EAN and no artist or title, with nothing found, counts
/// as "nothing to match by"; a failure of either source is reported (the
/// MusicBrainz one first).
pub fn cd_outcome(
    mb: Result<Vec<Candidate>, String>,
    dg: Result<Vec<Candidate>, String>,
    ean_known: bool,
    artiste: &str,
    titre: &str,
) -> (r: Outcome)
    ensures
        match (mb, dg) {
            (Ok(a), Ok(b)) => {
                let found = take1(cands(a@)) + take1(cands(b@));
                if found.len() == 0 && !ean_known && (artiste@.len() == 0 || titre@.len() == 0) {
                    r is NoEan
                } else {
                    r matches Outcome::Found(l) && cands(l@) == found
                }
            },
            (Err(e), _) => r matches Outcome::Failed(m) && m@ == e@,
            (Ok(_), Err(e)) => r matches Outcome::Failed(m) && m@ == e@,
        },
{
    match (mb, dg) {
        (Ok(a), Ok(b)) => {
            let ghost av = cands(a@);
            let ghost bv = cands(b@);
            let mut a = a;
            let mut b = b;
            a.truncate(1);
            b.truncate(1);
            assert(cands(a@) =~= take1(av));
            assert(cands(b@) =~= take1(bv));
            let ghost a1 = a@;
            let ghost b1 = b@;
            a.append(&mut b);
            assert(cands(a@) =~= cands(a1) + cands(b1));
            if a.len() == 0 && !ean_known && (artiste.is_empty() || titre.is_empty()) {
                Outcome::NoEan
            } else {
                Outcome::Found(a)
            }
        },
        (Err(e), _) => Outcome::Failed(e),
        (Ok(_), Err(e)) => Outcome::Failed(e),
    }
}

/// The answer of a single-source lookup (films, books): its best candidate.
pub fn single_outcome(r: Result<Vec<Candidate>, String>) -> (o: Outcome)
    ensures
        match r {
            Ok(l) => o matches Outcome::Found(x) && cands(x@) == take1(cands(l@)),
            Err(e) => o matches Outcome::Failed(m) && m@ == e@,
        },
{
    match r {
        Ok(l) => {
            let ghost lv = cands(l@);
            let mut l = l;
            l.truncate(1);
            assert(cands(l@) =~= take1(lv));
            Outcome::Found(l)
        },
        Err(e) => Outcome::Failed(e),
    }
}

// ---------------------------------------------------------------------------
// Merging and progress
// ---------------------------------------------------------------------------

/// A field that enrichment may fill: empty in the record.
pub open spec fn fillable(fields: Map<Seq<char>, ValueV>, k: Seq<char>) -> bool {
    !fields.dom().contains(k) || fields[k] == ValueV::Null || (fields[k] matches ValueV::Str(s)
        && trim_spec(s).len() == 0) || (fields[k] matches ValueV::Array(a) && a.len() == 0)
}

/// `f` completed from `from`: a key that `f` lacks or holds empty takes
/// the value of `from`; the others keep theirs.
pub open spec fn merged(f: Map<Seq<char>, ValueV>, from: Map<Seq<char>, ValueV>) -> Map<Seq<char>, ValueV> {
    Map::new(
        |k: Seq<char>| f.dom().contains(k) || from.dom().contains(k),
        |k: Seq<char>| if from.dom().contains(k) && fillable(f, k) { from[k] } else { f[k] },
    )
}

/// `f` completed from the fields of each candidate in turn.
pub open spec fn merged_all(fs: Seq<FieldDef>, f: Map<Seq<char>, ValueV>, cs: Seq<CandidateV>) -> Map<Seq<char>, ValueV>
    decreases cs.len(),
{
    if cs.len() == 0 {
        f
    } else {
        merged(merged_all(fs, f, cs.drop_last()), applied(candidate_writes(fs, cs.last())))
    }
}

/// Some candidate, in turn, fills a field.
pub open spec fn fills_any(fs: Seq<FieldDef>, f: Map<Seq<char>, ValueV>, cs: Seq<CandidateV>) -> bool
    decreases cs.len(),
{
    cs.len() > 0 && (fills_any(fs, f, cs.drop_last()) || exists|k: Seq<char>|
        applied(candidate_writes(fs, cs.last())).dom().contains(k) && fillable(merged_all(fs, f, cs.drop_last()), k))
}

pub proof fn lemma_empty_view(v: Option<Value>)
    ensures
        is_empty_spec(v) == match v {
            None => true,
            Some(x) => vview(x) == ValueV::Null || (vview(x) matches ValueV::Str(s) && trim_spec(s).len() == 0)
                || (vview(x) matches ValueV::Array(a) && a.len() == 0),
        },
{
    match v {
        Some(Value::Array(a)) => {
            crate::value::lemma_vviews_len(a@);
        },
        _ => {},
    }
}

/// Completes the empty fields of a record from the fields of a candidate:
/// a field that holds something is never overwritten.
pub fn merge_fields(fields: &mut StrMap<Value>, from: StrMap<Value>) -> (changed: bool)
    requires
        old(fields).wf(),
        from.wf(),
    ensures
        final(fields).wf(),
        forall|k: Seq<char>| #[trigger] fields_view(*final(fields)).dom().contains(k) <==> (fields_view(*old(fields)).dom().contains(k)
            || fields_view(from).dom().contains(k)),
        forall|k: Seq<char>| fields_view(*old(fields)).dom().contains(k) && !fillable(fields_view(*old(fields)), k)
            ==> #[trigger] fields_view(*final(fields))[k] == fields_view(*old(fields))[k],
        forall|k: Seq<char>| #[trigger] fields_view(*final(fields)).dom().contains(k) && fillable(fields_view(*old(fields)), k)
            && fields_view(from).dom().contains(k) ==> fields_view(*final(fields))[k] == fields_view(from)[k],
        forall|k: Seq<char>| #[trigger] fields_view(*final(fields)).dom().contains(k) && !fields_view(from).dom().contains(k)
            ==> fields_view(*final(fields))[k] == fields_view(*old(fields))[k],
        changed == exists|k: Seq<char>| fields_view(from).dom().contains(k) && fillable(fields_view(*old(fields)), k),
        fields_view(*final(fields)) == merged(fields_view(*old(fields)), fields_view(from)),
{
    let ghost f0 = fields_view(*fields);
    let ghost src = fields_view(from);
    let entries = from.entries;
    let mut changed = false;
    let mut i: usize = 0;
    let ghost es = entries@;
    while i < entries.len()
        invariant
            i <= es.len(),
            es == entries@,
            crate::value::distinct_keys(es),
            src == crate::value::entries_map(es).map_values(|v: Value| vview(v)),
            fields.wf(),
            forall|k: Seq<char>| #[trigger] fields_view(*fields).dom().contains(k) <==> (f0.dom().contains(k)
                || exists|j: int| 0 <= j < i && (#[trigger] es[j]).0@ == k),
            forall|k: Seq<char>| f0.dom().contains(k) && !fillable(f0, k) ==> #[trigger] fields_view(*fields)[k] == f0[k],
            forall|j: int| 0 <= j < i && fillable(f0, (#[trigger] es[j]).0@) ==> fields_view(*fields)[es[j].0@] == vview(es[j].1),
            forall|k: Seq<char>| #[trigger] fields_view(*fields).dom().contains(k) && !(exists|j: int| 0 <= j < i && (#[trigger] es[j]).0@ == k)
                ==> fields_view(*fields)[k] == f0[k],
            changed == exists|j: int| 0 <= j < i && fillable(f0, (#[trigger] es[j]).0@),
        decreases es.len() - i,
    {
        let key = &entries[i].0;
        let current = fields.get(key.as_str());
        let empty = is_empty_value(current);
        proof {
            lemma_empty_view(crate::hydrate::deref_opt(current));
        }
        let ghost fb = fields_view(*fields);
        assert(fb.dom().contains(key@) == fields.view().dom().contains(key@));
        assert(fields.view().dom().contains(key@) ==> fb[key@] == vview(fields.view()[key@]));
        assert(empty == fillable(fb, key@));
        if empty {
            let v = entries[i].1.clone();
            let ghost vv = vview(v);
            fields.insert(key.clone(), v);
            changed = true;
            assert(fields_view(*fields) =~= fb.insert(key@, vv));
        }
        proof {
            assert(empty == fillable(f0, es[i as int].0@)) by {
                if !(exists|j: int| 0 <= j < i && (#[trigger] es[j]).0@ == key@) {
                    if f0.dom().contains(key@) {
                        assert(fb[key@] == f0[key@]);
                    }
                } else {
                    let j = choose|j: int| 0 <= j < i && (#[trigger] es[j]).0@ == key@;
                    assert(es[j].0@ != es[i as int].0@);
                }
            }
        }
        i = i + 1;
    }
    proof {
        assert forall|k: Seq<char>| src.dom().contains(k) <==> exists|j: int| 0 <= j < es.len() && (#[trigger] es[j]).0@ == k by {
            if src.dom().contains(k) {
                assert(crate::value::has_key(es, k));
            }
            if exists|j: int| 0 <= j < es.len() && (#[trigger] es[j]).0@ == k {
                assert(crate::value::has_key(es, k));
            }
        }
        assert forall|k: Seq<char>| #[trigger] fields_view(*fields).dom().contains(k) && fillable(f0, k) && src.dom().contains(k)
            implies fields_view(*fields)[k] == src[k] by {
            let j = crate::value::key_index(es, k);
            assert(crate::value::has_key(es, k));
            assert(0 <= j < es.len() && es[j].0@ == k);
        }
        if changed {
            let j = choose|j: int| 0 <= j < es.len() && fillable(f0, (#[trigger] es[j]).0@);
            assert(crate::value::has_key(es, es[j].0@));
            assert(src.dom().contains(es[j].0@));
        }
        if exists|k: Seq<char>| src.dom().contains(k) && fillable(f0, k) {
            let k = choose|k: Seq<char>| src.dom().contains(k) && fillable(f0, k);
            let j = crate::value::key_index(es, k);
            assert(crate::value::has_key(es, k));
            assert(fillable(f0, es[j].0@));
        }
    }
    proof {
        let m = merged(f0, fields_view(from));
        assert forall|k: Seq<char>| #[trigger] fields_view(*fields).dom().contains(k) implies fields_view(*fields)[k] == m[k] by {
            if !fields_view(from).dom().contains(k) {
            } else if fillable(f0, k) {
            } else {
                assert(f0.dom().contains(k));
            }
        }
        assert(fields_view(*fields) =~= m);
    }
    changed
}

/// Completes a record from each validated candidate in turn: the first
/// non-empty value wins (MusicBrainz before Discogs).
pub fn merge_candidates(schema: &Schema, fields: &mut StrMap<Value>, candidates: &Vec<Candidate>) -> (changed: bool)
    requires
        old(fields).wf(),
    ensures
        final(fields).wf(),
        forall|k: Seq<char>| fields_view(*old(fields)).dom().contains(k) && !fillable(fields_view(*old(fields)), k)
            ==> #[trigger] fields_view(*final(fields))[k] == fields_view(*old(fields))[k],
        forall|k: Seq<char>| #[trigger] fields_view(*old(fields)).dom().contains(k) ==> fields_view(*final(fields)).dom().contains(k),
        !changed ==> fields_view(*final(fields)) == fields_view(*old(fields)),
        fields_view(*final(fields)) == merged_all(schema.fields@, fields_view(*old(fields)), cands(candidates@)),
        changed == fills_any(schema.fields@, fields_view(*old(fields)), cands(candidates@)),
{
    let ghost f0 = fields_view(*fields);
    let mut changed = false;
    let mut i: usize = 0;
    while i < candidates.len()
        invariant
            i <= candidates@.len(),
            fields.wf(),
            forall|k: Seq<char>| f0.dom().contains(k) && !fillable(f0, k) ==> #[trigger] fields_view(*fields)[k] == f0[k],
            forall|k: Seq<char>| #[trigger] f0.dom().contains(k) ==> fields_view(*fields).dom().contains(k),
            !changed ==> fields_view(*fields) == f0,
            fields_view(*fields) == merged_all(schema.fields@, f0, cands(candidates@).take(i as int)),
            changed == fills_any(schema.fields@, f0, cands(candidates@).take(i as int)),
        decreases candidates@.len() - i,
    {
        proof {
            assert(cands(candidates@).take(i + 1).drop_last() =~= cands(candidates@).take(i as int));
            assert(cands(candidates@).take(i + 1).last() == candidates@[i as int]@);
        }
        let from = candidate_to_fields(schema, &candidates[i]);
        let ghost fb = fields_view(*fields);
        let c = merge_fields(fields, from);
        proof {
            assert forall|k: Seq<char>| f0.dom().contains(k) && !fillable(f0, k) implies #[trigger] fields_view(*fields)[k] == f0[k] by {
                assert(fb[k] == f0[k]);
                assert(fb.dom().contains(k));
            }
            if !c {
                assert(fields_view(*fields) =~= fb) by {
                    assert forall|k: Seq<char>| #[trigger] fields_view(*fields).dom().contains(k) implies fields_view(*fields)[k] == fb[k] by {
                        if fields_view(from).dom().contains(k) {
                            assert(!fillable(fb, k));
                        }
                    }
                    assert forall|k: Seq<char>| #[trigger] fields_view(*fields).dom().contains(k) implies fb.dom().contains(k) by {
                        if fields_view(from).dom().contains(k) && !fb.dom().contains(k) {
                            assert(fillable(fb, k));
                        }
                    }
                }
            }
        }
        changed = changed || c;
        i = i + 1;
    }
    assert(cands(candidates@).take(candidates@.len() as int) =~= cands(candidates@));
    changed
}

/// The cover addresses to try, in the order of the candidates, when the
/// record has no cover.
pub fn cover_urls(candidates: &Vec<Candidate>, cover_missing: bool) -> (r: Vec<String>)
    ensures
        !cover_missing ==> r@.len() == 0,
        cover_missing ==> views(r@) == cands(candidates@).filter_map(|c: CandidateV| c.cover_url),
{
    let mut out: Vec<String> = Vec::new();
    if !cover_missing {
        return out;
    }
    let ghost f = |c: CandidateV| c.cover_url;
    let mut i: usize = 0;
    while i < candidates.len()
        invariant
            i <= candidates@.len(),
            f == (|c: CandidateV| c.cover_url),
            views(out@) == cands(candidates@).take(i as int).filter_map(f),
        decreases candidates@.len() - i,
    {
        proof {
            cands(candidates@).lemma_filter_map_take_succ(f, i as int);
        }
        let ghost before = out@;
        match &candidates[i].cover_url {
            Some(u) => {
                out.push(u.clone());
                assert(views(out@) =~= views(before) + seq![u@]);
            },
            None => {},
        }
        i = i + 1;
    }
    assert(cands(candidates@).take(candidates@.len() as int) =~= cands(candidates@));
    out
}

/// Where a record's cover is stored, relative to the library.
pub fn cover_path(collection: &str, id: &str) -> (r: String)
    ensures
        r@ == "images/"@ + collection@ + seq!['/'] + id@ + ".webp"@,
{
    let mut out = owned("images/");
    out.append(collection);
    push_char(&mut out, '/');
    out.append(id);
    out.append(".webp");
    out
}

/// A record counted as done without any change.
pub enum Tally {
    Skipped,
    NoEan,
    NotFound,
    Error,
}

/// Counts a record that ends early.
pub fn tally(p: &mut EnrichProgress, t: Tally, error: Option<String>)
    requires
        old(p).processed < usize::MAX,
        old(p).skipped < usize::MAX,
        old(p).no_ean < usize::MAX,
        old(p).not_found < usize::MAX,
        old(p).errors < usize::MAX,
    ensures
        final(p).processed == old(p).processed + 1,
        final(p).skipped == old(p).skipped + if t is Skipped { 1usize } else { 0usize },
        final(p).no_ean == old(p).no_ean + if t is NoEan { 1usize } else { 0usize },
        final(p).not_found == old(p).not_found + if t is NotFound { 1usize } else { 0usize },
        final(p).errors == old(p).errors + if t is Error { 1usize } else { 0usize },
        final(p).enriched == old(p).enriched,
        final(p).covers == old(p).covers,
        t is Error ==> opt_view(final(p).last_error) == opt_view(error),
        !(t is Error) ==> final(p).last_error == old(p).last_error,
{
    p.processed = p.processed + 1;
    match t {
        Tally::Skipped => p.skipped = p.skipped + 1,
        Tally::NoEan => p.no_ean = p.no_ean + 1,
        Tally::NotFound => p.not_found = p.not_found + 1,
        Tally::Error => {
            p.errors = p.errors + 1;
            p.last_error = error;
        },
    }
}

/// The message of a failed lookup or download: the record's title first.
pub fn item_error(titre: &str, e: &str) -> (r: String)
    ensures
        r@ == titre@ + " : "@ + e@,
{
    concat3(titre, " : ", e)
}

/// Counts a record that went through the lookups.
pub fn finish_item(p: &mut EnrichProgress, changed: bool, got_cover: bool)
    requires
        old(p).processed < usize::MAX,
        old(p).enriched < usize::MAX,
        old(p).covers < usize::MAX,
    ensures
        final(p).processed == old(p).processed + 1,
        final(p).enriched == old(p).enriched + if changed { 1usize } else { 0usize },
        final(p).covers == old(p).covers + if got_cover { 1usize } else { 0usize },
        final(p).skipped == old(p).skipped && final(p).no_ean == old(p).no_ean,
        final(p).not_found == old(p).not_found && final(p).errors == old(p).errors,
{
    p.processed = p.processed + 1;
    if changed {
        p.enriched = p.enriched + 1;
    }
    if got_cover {
        p.covers = p.covers + 1;
    }
}

/// The end of a run: not running, done, nothing current; a failure of the
/// whole run is counted and kept.
pub fn finish_run(p: &mut EnrichProgress, result: Result<(), String>)
    requires
        old(p).errors < usize::MAX,
    ensures
        !final(p).running && final(p).done && final(p).current@.len() == 0,
        final(p).processed == old(p).processed,
        final(p).enriched == old(p).enriched && final(p).covers == old(p).covers,
        match result {
            Ok(()) => final(p).errors == old(p).errors && final(p).last_error == old(p).last_error,
            Err(e) => final(p).errors == old(p).errors + 1 && opt_view(final(p).last_error) == Some(e@),
        },
{
    p.running = false;
    p.done = true;
    p.current = String::new();
    match result {
        Ok(()) => {},
        Err(e) => {
            p.errors = p.errors + 1;
            p.last_error = Some(e);
        },
    }
}

/// The message of the automatic commit after a run that changed something.
pub fn summary_message(collection: &str, enriched: usize, covers: usize) -> (r: Option<String>)
    ensures
        (enriched == 0 && covers == 0) ==> r is None,
        !(enriched == 0 && covers == 0) ==> r is Some && r.unwrap()@ == "Enrichissement "@ + collection@ + " : "@
            + crate::text::decimal(enriched as nat) + " fiches, "@ + crate::text::decimal(covers as nat)
            + " couvertures"@,
{
    if enriched == 0 && covers == 0 {
        return None;
    }
    let mut out = owned("Enrichissement ");
    out.append(collection);
    out.append(" : ");
    out.append(crate::text::format_u128(enriched as u128).as_str());
    out.append(" fiches, ");
    out.append(crate::text::format_u128(covers as u128).as_str());
    out.append(" couvertures");
    Some(out)
}

} // verus!
