//! The data model: field types, schemas, items, series and counters.
use vstd::prelude::*;
use crate::text::{
    decimal, format_u128, lemma_decimal, views, chars_of, first, is_alnum, is_digit, is_first, is_lower, is_blank, lemma_first_none,
    lemma_first_some, owned, str_eq, string_of, to_ascii_upper, trim_spec, upper,
    is_ascii_alphanumeric, is_ascii_digit, is_ascii_lowercase,
};
use crate::value::{StrMap, Value};
use vstd::relations::injective_on;
use vstd::set_lib::{lemma_int_range, lemma_len_subset, lemma_map_size, set_int_range};

verus! {

/// Generic field types that a collection schema assembles.
#[derive(Debug, Clone, Copy, PartialEq, Eq, Structural)]
pub enum FieldType {
    Text,
    Longtext,
    TextList,
    Number,
    Date,
    Select,
    Tags,
    Boolean,
    Rating,
    Url,
    Image,
    SeriesRef,
}

/// A possible value of a `select` field, with its short shelf-mark code.
#[derive(Debug, Clone)]
pub struct SelectOption {
    pub value: String,
    pub code: Option<String>,
}

/// The accent-free letter of `c` for the French accented vowels and cedilla.
pub open spec fn unaccent_spec(c: char) -> char {
    if c == 'à' || c == 'â' || c == 'ä' || c == 'á' || c == 'À' || c == 'Â' || c == 'Ä' {
        'a'
    } else if c == 'é' || c == 'è' || c == 'ê' || c == 'ë' || c == 'É' || c == 'È' || c == 'Ê'
        || c == 'Ë' {
        'e'
    } else if c == 'î' || c == 'ï' || c == 'Î' || c == 'Ï' {
        'i'
    } else if c == 'ô' || c == 'ö' || c == 'Ô' || c == 'Ö' {
        'o'
    } else if c == 'ù' || c == 'û' || c == 'ü' || c == 'Ù' || c == 'Û' || c == 'Ü' {
        'u'
    } else if c == 'ç' || c == 'Ç' {
        'c'
    } else {
        c
    }
}

/// Strips the accent of a French accented letter (lower-casing it).
pub fn unaccent(c: char) -> (r: char)
    ensures
        r == unaccent_spec(c),
{
    match c {
        'à' | 'â' | 'ä' | 'á' | 'À' | 'Â' | 'Ä' => 'a',
        'é' | 'è' | 'ê' | 'ë' | 'É' | 'È' | 'Ê' | 'Ë' => 'e',
        'î' | 'ï' | 'Î' | 'Ï' => 'i',
        'ô' | 'ö' | 'Ô' | 'Ö' => 'o',
        'ù' | 'û' | 'ü' | 'Ù' | 'Û' | 'Ü' => 'u',
        'ç' | 'Ç' => 'c',
        other => other,
    }
}

/// The letters and digits of `s`, accents stripped, in upper case.
pub open spec fn code_chars(s: Seq<char>) -> Seq<char>
    decreases s.len(),
{
    if s.len() == 0 {
        Seq::empty()
    } else {
        let rest = code_chars(s.drop_last());
        let c = unaccent_spec(s.last());
        if is_alnum(c) {
            rest.push(upper(c))
        } else {
            rest
        }
    }
}

/// The code derived from a label: at most six upper-case ASCII letters or
/// digits, `AUTRE` when the label has none.
pub open spec fn derive_code_spec(s: Seq<char>) -> Seq<char> {
    let c = code_chars(s);
    if c.len() == 0 {
        "AUTRE"@
    } else if c.len() <= 6 {
        c
    } else {
        c.take(6)
    }
}

/// Derives a short code (at most six upper-case ASCII letters or digits)
/// from a label.
pub fn derive_code(value: &str) -> (r: String)
    ensures
        r@ == derive_code_spec(value@),
{
    let cs = chars_of(value);
    let mut out: Vec<char> = Vec::new();
    let mut i: usize = 0;
    while i < cs.len()
        invariant
            i <= cs@.len(),
            cs@ == value@,
            out@ == code_chars(cs@.take(i as int)),
        decreases cs@.len() - i,
    {
        let ghost prev = cs@.take(i as int);
        let ghost next = cs@.take(i + 1);
        assert(next.drop_last() =~= prev);
        let c = unaccent(cs[i]);
        if is_ascii_alphanumeric(c) {
            out.push(to_ascii_upper(c));
        }
        i = i + 1;
    }
    assert(cs@.take(cs@.len() as int) =~= cs@);
    if out.len() == 0 {
        owned("AUTRE")
    } else if out.len() <= 6 {
        string_of(&out)
    } else {
        let mut six: Vec<char> = Vec::new();
        let mut k: usize = 0;
        while k < 6
            invariant
                k <= 6,
                out@.len() > 6,
                six@ == out@.take(k as int),
            decreases 6 - k,
        {
            six.push(out[k]);
            k = k + 1;
            assert(six@ =~= out@.take(k as int));
        }
        string_of(&six)
    }
}

/// The code of an option: its own, or the one derived from its value.
pub open spec fn effective_code_spec(o: SelectOption) -> Seq<char> {
    match o.code {
        Some(c) => c@,
        None => derive_code_spec(o.value@),
    }
}

impl SelectOption {
    /// Effective code: the one defined, or else the one derived from the value.
    pub fn effective_code(&self) -> (r: String)
        ensures
            r@ == effective_code_spec(*self),
    {
        match &self.code {
            Some(c) => c.clone(),
            None => derive_code(self.value.as_str()),
        }
    }
}

#[derive(Debug, Clone)]
pub struct FieldDef {
    pub key: String,
    pub label: String,
    pub field_type: FieldType,
    pub required: bool,
    /// Allowed values (`select` fields only).
    pub options: Vec<SelectOption>,
    /// Highest mark (`rating` fields only).
    pub max: Option<u8>,
}

/// The fields that the shelf mark `YYYY-GENRE-NNNN` is made from.
#[derive(Debug, Clone)]
pub struct CoteConfig {
    pub year_field: String,
    pub genre_field: String,
}

#[derive(Debug, Clone)]
pub struct Schema {
    pub name: String,
    pub id_prefix: String,
    /// Hydration source of the collection.
    pub source: Option<String>,
    pub cote: Option<CoteConfig>,
    pub fields: Vec<FieldDef>,
}

/// System keys that a field may not use: the six keys that the
/// application manages on every item.
pub open spec fn is_reserved_key(k: Seq<char>) -> bool {
    k == "id"@ || k == "cote"@ || k == "statut"@ || k == "emplacement"@ || k == "etiquette"@
        || k == "date_ajout"@
}

/// Whether `k` is one of the system keys (`id`, `cote`, `statut`,
/// `emplacement`, `etiquette`, `date_ajout`).
pub fn reserved_key(k: &str) -> (r: bool)
    ensures
        r == is_reserved_key(k@),
{
    str_eq(k, "id") || str_eq(k, "cote") || str_eq(k, "statut") || str_eq(k, "emplacement")
        || str_eq(k, "etiquette") || str_eq(k, "date_ajout")
}

pub open spec fn key_is(k: Seq<char>) -> spec_fn(FieldDef) -> bool {
    |f: FieldDef| f.key@ == k
}

pub open spec fn is_text(f: FieldDef) -> bool {
    f.field_type == FieldType::Text
}

pub open spec fn is_required_text(f: FieldDef) -> bool {
    f.field_type == FieldType::Text && f.required
}

pub open spec fn is_series_ref(f: FieldDef) -> bool {
    f.field_type == FieldType::SeriesRef
}

/// The field of `fs` with key `k` (the first one).
pub open spec fn field_spec(fs: Seq<FieldDef>, k: Seq<char>) -> Option<FieldDef> {
    match first(fs, key_is(k)) {
        Some(i) => Some(fs[i]),
        None => None,
    }
}

/// The title field: the first required text field, else the first text field.
pub open spec fn title_field_spec(fs: Seq<FieldDef>) -> Option<FieldDef> {
    match first(fs, |f: FieldDef| is_required_text(f)) {
        Some(i) => Some(fs[i]),
        None => match first(fs, |f: FieldDef| is_text(f)) {
            Some(i) => Some(fs[i]),
            None => None,
        },
    }
}

/// Characters allowed in a field key.
pub open spec fn is_key_char(c: char) -> bool {
    is_lower(c) || is_digit(c) || c == '_'
}

pub open spec fn valid_key(k: Seq<char>) -> bool {
    k.len() > 0 && forall|i: int| 0 <= i < k.len() ==> is_key_char(#[trigger] k[i])
}

pub open spec fn valid_prefix(p: Seq<char>) -> bool {
    trim_spec(p).len() > 0 && forall|i: int| 0 <= i < p.len() ==> is_alnum(#[trigger] p[i])
}

/// The error that field `f` raises after the fields `prev`, if any.
pub open spec fn field_key_error(prev: Seq<FieldDef>, f: FieldDef) -> Option<Seq<char>> {
    if !valid_key(f.key@) {
        Some("clé de champ invalide « "@ + f.key@ + " » (minuscules, chiffres, _)"@)
    } else if is_reserved_key(f.key@) {
        Some("« "@ + f.key@ + " » est une clé système réservée"@)
    } else if exists|j: int| 0 <= j < prev.len() && (#[trigger] prev[j]).key@ == f.key@ {
        Some("clé de champ en double : « "@ + f.key@ + " »"@)
    } else {
        None
    }
}

/// The first key error over the fields, in order.
pub open spec fn keys_error(fs: Seq<FieldDef>) -> Option<Seq<char>>
    decreases fs.len(),
{
    if fs.len() == 0 {
        None
    } else {
        match keys_error(fs.drop_last()) {
            Some(e) => Some(e),
            None => field_key_error(fs.drop_last(), fs.last()),
        }
    }
}

/// Number of `series_ref` fields.
pub open spec fn series_ref_count(fs: Seq<FieldDef>) -> nat
    decreases fs.len(),
{
    if fs.len() == 0 {
        0
    } else {
        series_ref_count(fs.drop_last()) + if is_series_ref(fs.last()) {
            1nat
        } else {
            0nat
        }
    }
}

/// The outcome of `Schema::validate`: the first guard that fails.
pub open spec fn validate_spec(s: Schema) -> Result<(), Seq<char>> {
    if trim_spec(s.name@).len() == 0 {
        Err("le nom de la collection est obligatoire"@)
    } else if !valid_prefix(s.id_prefix@) {
        Err("le préfixe d'ID doit être alphanumérique (ex : VIN)"@)
    } else if s.fields@.len() == 0 {
        Err("au moins un champ est nécessaire"@)
    } else if keys_error(s.fields@) is Some {
        Err(keys_error(s.fields@).unwrap())
    } else if title_field_spec(s.fields@).is_none() {
        Err("il faut au moins un champ de type texte (le titre)"@)
    } else if series_ref_count(s.fields@) > 1 {
        Err("une collection ne peut avoir qu'un champ série"@)
    } else {
        match s.cote {
            Some(c) => match field_spec(s.fields@, c.year_field@) {
                Some(f) if f.field_type == FieldType::Date => match field_spec(
                    s.fields@,
                    c.genre_field@,
                ) {
                    Some(g) if g.field_type == FieldType::Select => Ok(()),
                    _ => Err("le champ genre de la cote doit être une liste à choix"@),
                },
                _ => Err("le champ année de la cote doit être un champ date"@),
            },
            None => Ok(()),
        }
    }
}

fn concat3(a: &str, b: &str, c: &str) -> (r: String)
    ensures
        r@ == a@ + b@ + c@,
{
    let mut s = owned(a);
    s.append(b);
    s.append(c);
    s
}

fn is_valid_key(k: &str) -> (r: bool)
    ensures
        r == valid_key(k@),
{
    let cs = chars_of(k);
    if cs.len() == 0 {
        return false;
    }
    let mut i: usize = 0;
    while i < cs.len()
        invariant
            i <= cs@.len(),
            cs@ == k@,
            forall|j: int| 0 <= j < i ==> is_key_char(#[trigger] cs@[j]),
        decreases cs@.len() - i,
    {
        let c = cs[i];
        if !(is_ascii_lowercase(c) || is_ascii_digit(c) || c == '_') {
            assert(!is_key_char(cs@[i as int]));
            return false;
        }
        i = i + 1;
    }
    true
}

fn is_valid_prefix(p: &str) -> (r: bool)
    ensures
        r == valid_prefix(p@),
{
    if is_blank(p) {
        return false;
    }
    let cs = chars_of(p);
    let mut i: usize = 0;
    while i < cs.len()
        invariant
            i <= cs@.len(),
            cs@ == p@,
            forall|j: int| 0 <= j < i ==> is_alnum(#[trigger] cs@[j]),
        decreases cs@.len() - i,
    {
        if !is_ascii_alphanumeric(cs[i]) {
            assert(!is_alnum(cs@[i as int]));
            return false;
        }
        i = i + 1;
    }
    true
}

impl Schema {
    /// The field with key `key`.
    pub fn field(&self, key: &str) -> (r: Option<&FieldDef>)
        ensures
            match r {
                Some(f) => field_spec(self.fields@, key@) == Some(*f),
                None => field_spec(self.fields@, key@).is_none(),
            },
    {
        let mut i: usize = 0;
        while i < self.fields.len()
            invariant
                i <= self.fields@.len(),
                forall|j: int| 0 <= j < i ==> !(key_is(key@))(#[trigger] self.fields@[j]),
            decreases self.fields@.len() - i,
        {
            if str_eq(self.fields[i].key.as_str(), key) {
                proof {
                    lemma_first_some(self.fields@, key_is(key@), i as int);
                }
                return Some(&self.fields[i]);
            }
            i = i + 1;
        }
        proof {
            lemma_first_none(self.fields@, key_is(key@));
        }
        None
    }

    /// The first required text field, used as the item's label in lists;
    /// failing that, the first text field.
    pub fn title_field(&self) -> (r: Option<&FieldDef>)
        ensures
            match r {
                Some(f) => title_field_spec(self.fields@) == Some(*f),
                None => title_field_spec(self.fields@).is_none(),
            },
    {
        let ghost req = |f: FieldDef| is_required_text(f);
        let ghost txt = |f: FieldDef| is_text(f);
        let mut i: usize = 0;
        while i < self.fields.len()
            invariant
                i <= self.fields@.len(),
                req == (|f: FieldDef| is_required_text(f)),
                forall|j: int| 0 <= j < i ==> !req(#[trigger] self.fields@[j]),
            decreases self.fields@.len() - i,
        {
            if self.fields[i].field_type == FieldType::Text && self.fields[i].required {
                proof {
                    lemma_first_some(self.fields@, req, i as int);
                }
                return Some(&self.fields[i]);
            }
            i = i + 1;
        }
        proof {
            lemma_first_none(self.fields@, req);
        }
        let mut i: usize = 0;
        while i < self.fields.len()
            invariant
                i <= self.fields@.len(),
                txt == (|f: FieldDef| is_text(f)),
                req == (|f: FieldDef| is_required_text(f)),
                first(self.fields@, req).is_none(),
                forall|j: int| 0 <= j < i ==> !txt(#[trigger] self.fields@[j]),
            decreases self.fields@.len() - i,
        {
            if self.fields[i].field_type == FieldType::Text {
                proof {
                    lemma_first_some(self.fields@, txt, i as int);
                }
                return Some(&self.fields[i]);
            }
            i = i + 1;
        }
        proof {
            lemma_first_none(self.fields@, txt);
        }
        None
    }

    /// Guards before a schema is written (creation or edition).
    pub fn validate(&self) -> (r: Result<(), String>)
        ensures
            match r {
                Ok(()) => validate_spec(*self) == Ok::<(), Seq<char>>(()),
                Err(e) => validate_spec(*self) == Err::<(), Seq<char>>(e@),
            },
    {
        if is_blank(self.name.as_str()) {
            return Err(owned("le nom de la collection est obligatoire"));
        }
        if !is_valid_prefix(self.id_prefix.as_str()) {
            return Err(owned("le préfixe d'ID doit être alphanumérique (ex : VIN)"));
        }
        if self.fields.len() == 0 {
            return Err(owned("au moins un champ est nécessaire"));
        }
        let mut i: usize = 0;
        while i < self.fields.len()
            invariant
                i <= self.fields@.len(),
                keys_error(self.fields@.take(i as int)).is_none(),
                trim_spec(self.name@).len() > 0,
                valid_prefix(self.id_prefix@),
                self.fields@.len() > 0,
            decreases self.fields@.len() - i,
        {
            let ghost prev = self.fields@.take(i as int);
            let ghost next = self.fields@.take(i + 1);
            assert(next.drop_last() =~= prev);
            assert(next.last() == self.fields@[i as int]);
            let key = self.fields[i].key.as_str();
            if !is_valid_key(key) {
                proof {
                    lemma_keys_error_prefix(self.fields@, i as int + 1);
                }
                return Err(concat3("clé de champ invalide « ", key, " » (minuscules, chiffres, _)"));
            }
            if reserved_key(key) {
                proof {
                    lemma_keys_error_prefix(self.fields@, i as int + 1);
                }
                return Err(concat3("« ", key, " » est une clé système réservée"));
            }
            let mut j: usize = 0;
            while j < i
                invariant
                    j <= i < self.fields@.len(),
                    prev == self.fields@.take(i as int),
                    keys_error(prev).is_none(),
                    valid_key(self.fields@[i as int].key@),
                    !is_reserved_key(self.fields@[i as int].key@),
                    trim_spec(self.name@).len() > 0,
                    valid_prefix(self.id_prefix@),
                    self.fields@.len() > 0,
                    forall|t: int| 0 <= t < j ==> (#[trigger] prev[t]).key@ != self.fields@[i as int].key@,
                decreases i - j,
            {
                if str_eq(self.fields[j].key.as_str(), self.fields[i].key.as_str()) {
                    assert(prev[j as int].key@ == self.fields@[i as int].key@);
                    proof {
                        lemma_keys_error_prefix(self.fields@, i as int + 1);
                    }
                    return Err(concat3("clé de champ en double : « ", self.fields[i].key.as_str(), " »"));
                }
                j = j + 1;
            }
            i = i + 1;
        }
        assert(self.fields@.take(self.fields@.len() as int) =~= self.fields@);
        if self.title_field().is_none() {
            return Err(owned("il faut au moins un champ de type texte (le titre)"));
        }
        let mut n: usize = 0;
        let mut k: usize = 0;
        while k < self.fields.len()
            invariant
                k <= self.fields@.len(),
                n == series_ref_count(self.fields@.take(k as int)),
                n <= k,
            decreases self.fields@.len() - k,
        {
            let ghost prev = self.fields@.take(k as int);
            let ghost next = self.fields@.take(k + 1);
            assert(next.drop_last() =~= prev);
            if self.fields[k].field_type == FieldType::SeriesRef {
                n = n + 1;
            }
            k = k + 1;
        }
        if n > 1 {
            return Err(owned("une collection ne peut avoir qu'un champ série"));
        }
        match &self.cote {
            Some(cote) => {
                match self.field(cote.year_field.as_str()) {
                    Some(f) => {
                        if f.field_type != FieldType::Date {
                            return Err(owned("le champ année de la cote doit être un champ date"));
                        }
                    },
                    None => {
                        return Err(owned("le champ année de la cote doit être un champ date"));
                    },
                }
                match self.field(cote.genre_field.as_str()) {
                    Some(f) => {
                        if f.field_type != FieldType::Select {
                            return Err(owned("le champ genre de la cote doit être une liste à choix"));
                        }
                    },
                    None => {
                        return Err(owned("le champ genre de la cote doit être une liste à choix"));
                    },
                }
                Ok(())
            },
            None => Ok(()),
        }
    }
}

/// When the fields before position `n - 1` raise no error, the first
/// error of the whole list is that of field `n - 1`, if it raises one.
proof fn lemma_keys_error_prefix(fs: Seq<FieldDef>, n: int)
    requires
        0 < n <= fs.len(),
        keys_error(fs.take(n - 1)).is_none(),
        field_key_error(fs.take(n - 1), fs[n - 1]) is Some,
    ensures
        keys_error(fs) == field_key_error(fs.take(n - 1), fs[n - 1]),
    decreases fs.len(),
{
    assert(fs.take(n).drop_last() =~= fs.take(n - 1));
    assert(fs.take(n).last() == fs[n - 1]);
    if n < fs.len() {
        assert(fs.drop_last().take(n - 1) =~= fs.take(n - 1));
        assert(fs.drop_last()[n - 1] == fs[n - 1]);
        lemma_keys_error_prefix(fs.drop_last(), n);
    } else {
        assert(fs.take(n) =~= fs);
    }
}

#[derive(Debug, Clone, Copy, PartialEq, Eq, Structural)]
pub enum Statut {
    Possede,
    Souhaite,
}

/// An item of a collection: system fields, then the schema's fields.
#[derive(Debug, Clone)]
pub struct Item {
    pub id: String,
    pub cote: Option<String>,
    pub statut: Statut,
    pub emplacement: Option<String>,
    /// Shelf mark printed on the physical label, once labelled.
    pub etiquette: Option<String>,
    pub date_ajout: String,
    pub fields: StrMap<Value>,
}

#[derive(Debug, Clone)]
pub struct Series {
    pub id: String,
    pub nom: String,
    pub terminee: bool,
}

/// Per-collection counters: sequence of internal IDs and the shelf-mark
/// sequences per `YYYY-GENRE` prefix.
#[derive(Debug, Clone)]
pub struct Counters {
    pub next_id: u64,
    pub cotes: StrMap<u64>,
}

impl Counters {
    pub fn new() -> (r: Counters)
        ensures
            r.next_id == 0,
            r.cotes.wf(),
            r.cotes.view() == Map::<Seq<char>, u64>::empty(),
    {
        Counters { next_id: 0, cotes: StrMap::new() }
    }
}

} // verus!

verus! {

// ---------------------------------------------------------------------------
// Adding an option with a code that no other option uses
// ---------------------------------------------------------------------------

/// The effective codes of a list of options.
pub open spec fn codes(opts: Seq<SelectOption>) -> Seq<Seq<char>> {
    opts.map_values(|o: SelectOption| effective_code_spec(o))
}

/// Candidate codes for a new option: the derived code, then the derived
/// code followed by 2, 3, 4…
pub open spec fn candidate(base: Seq<char>, n: nat) -> Seq<char> {
    if n < 2 {
        base
    } else {
        base + decimal(n)
    }
}

/// The first candidate that no existing option uses.
pub open spec fn unique_code_spec(taken: Seq<Seq<char>>, base: Seq<char>) -> Seq<char> {
    let n = choose|n: nat| n >= 1 && !taken.contains(candidate(base, n)) && forall|m: nat|
        1 <= m < n ==> taken.contains(#[trigger] candidate(base, m));
    candidate(base, n)
}

proof fn lemma_candidate_injective(base: Seq<char>, a: nat, b: nat)
    requires
        a >= 1,
        b >= 1,
        candidate(base, a) == candidate(base, b),
    ensures
        a == b,
{
    lemma_decimal(a);
    lemma_decimal(b);
    if a >= 2 && b >= 2 {
        assert(candidate(base, a).subrange(base.len() as int, candidate(base, a).len() as int) =~= decimal(a));
        assert(candidate(base, b).subrange(base.len() as int, candidate(base, b).len() as int) =~= decimal(b));
    }
}

/// Pigeonhole: `k` distinct candidates cannot all be among fewer than `k`
/// codes.
proof fn lemma_candidates_bound(taken: Seq<Seq<char>>, base: Seq<char>, k: nat)
    requires
        forall|m: nat| 1 <= m <= k ==> taken.contains(#[trigger] candidate(base, m)),
    ensures
        k <= taken.len(),
{
    let x = set_int_range(1, k as int + 1);
    lemma_int_range(1, k as int + 1);
    let f = |m: int| candidate(base, m as nat);
    assert(injective_on(f, x)) by {
        assert forall|a: int, b: int| x.contains(a) && x.contains(b) && #[trigger] f(a) == #[trigger] f(b) implies a == b by {
            lemma_candidate_injective(base, a as nat, b as nat);
        }
    }
    let y = x.map(f);
    lemma_map_size(x, y, f);
    let t = taken.to_set();
    assert(y.subset_of(t)) by {
        assert forall|c: Seq<char>| y.contains(c) implies t.contains(c) by {
            let m = choose|m: int| x.contains(m) && f(m) == c;
            assert(taken.contains(candidate(base, m as nat)));
        }
    }
    taken.lemma_cardinality_of_set();
    lemma_len_subset(y, t);
}

pub(crate) fn contains_string(v: &Vec<String>, s: &str) -> (r: bool)
    ensures
        r == views(v@).contains(s@),
{
    let mut i: usize = 0;
    while i < v.len()
        invariant
            i <= v@.len(),
            forall|j: int| 0 <= j < i ==> v@[j]@ != s@,
        decreases v@.len() - i,
    {
        if str_eq(v[i].as_str(), s) {
            assert(views(v@)[i as int] == s@);
            return true;
        }
        i = i + 1;
    }
    assert forall|j: int| 0 <= j < views(v@).len() implies views(v@)[j] != s@ by {
        assert(views(v@)[j] == v@[j]@);
    }
    false
}

/// The code for a new option of value `value`: its derived code, or that
/// code followed by the smallest number from 2 that makes it unused.
pub fn unique_code(options: &Vec<SelectOption>, value: &str) -> (r: String)
    ensures
        r@ == unique_code_spec(codes(options@), derive_code_spec(value@)),
        !codes(options@).contains(r@),
{
    let mut taken: Vec<String> = Vec::new();
    let mut i: usize = 0;
    while i < options.len()
        invariant
            i <= options@.len(),
            taken@.len() == i,
            views(taken@) == codes(options@.take(i as int)),
        decreases options@.len() - i,
    {
        let ghost before = taken@;
        let c = options[i].effective_code();
        taken.push(c);
        proof {
            assert forall|j: int| 0 <= j < i + 1 implies views(taken@)[j] == codes(options@.take(i + 1))[j] by {
                if j < i {
                    assert(taken@[j] == before[j]);
                    assert(views(before)[j] == codes(options@.take(i as int))[j]);
                } else {
                    assert(taken@[j] == c);
                }
            }
        }
        i = i + 1;
        assert(views(taken@) =~= codes(options@.take(i as int)));
    }
    assert(options@.take(options@.len() as int) =~= options@);
    let ghost tk = views(taken@);
    let base = derive_code(value);
    let mut code = base.clone();
    let mut n: u128 = 2;
    while contains_string(&taken, code.as_str())
        invariant
            tk == views(taken@),
            2 <= n <= tk.len() + 2,
            code@ == candidate(base@, (n - 1) as nat),
            forall|m: nat| 1 <= m < n - 1 ==> tk.contains(#[trigger] candidate(base@, m)),
        decreases tk.len() + 2 - n,
    {
        proof {
            assert forall|m: nat| 1 <= m <= n - 1 implies tk.contains(#[trigger] candidate(base@, m)) by {
                if m == n - 1 {
                }
            }
            lemma_candidates_bound(tk, base@, (n - 1) as nat);
        }
        assert(tk.len() == taken.len());
        let num = format_u128(n);
        code = base.clone();
        code.append(num.as_str());
        n = n + 1;
    }
    proof {
        let k = (n - 1) as nat;
        assert(k >= 1 && !tk.contains(candidate(base@, k)) && forall|m: nat|
            1 <= m < k ==> tk.contains(#[trigger] candidate(base@, m)));
        let c = choose|n: nat| n >= 1 && !tk.contains(candidate(base@, n)) && forall|m: nat|
            1 <= m < n ==> tk.contains(#[trigger] candidate(base@, m));
        if c < k {
            assert(tk.contains(candidate(base@, c)));
        }
        if k < c {
            assert(tk.contains(candidate(base@, k)));
        }
    }
    code
}

/// Appends an option of value `value` whose code no other option uses.
/// Returns the new code.
pub fn add_option_with_unique_code(def: &mut FieldDef, value: &str) -> (r: String)
    ensures
        final(def).key == old(def).key,
        final(def).label == old(def).label,
        final(def).field_type == old(def).field_type,
        final(def).required == old(def).required,
        final(def).max == old(def).max,
        final(def).options@.len() == old(def).options@.len() + 1,
        final(def).options@.drop_last() == old(def).options@,
        final(def).options@.last().value@ == value@,
        final(def).options@.last().code == Some(r),
        r@ == unique_code_spec(codes(old(def).options@), derive_code_spec(value@)),
        !codes(old(def).options@).contains(r@),
{
    let code = unique_code(&def.options, value);
    def.options.push(SelectOption { value: owned(value), code: Some(code.clone()) });
    assert(def.options@.drop_last() =~= old(def).options@);
    code
}

/// All effective codes are different.
pub open spec fn distinct_codes(opts: Seq<SelectOption>) -> bool {
    forall|i: int, j: int| 0 <= i < j < opts.len() ==> effective_code_spec(#[trigger] opts[i]) != effective_code_spec(#[trigger] opts[j])
}

/// Law (shelf-mark codes stay unambiguous): appending an option whose
/// code is not the code of any option (as `add_option_with_unique_code`
/// guarantees) keeps the codes of a field pairwise different.
pub proof fn law_added_code_keeps_codes_distinct(opts: Seq<SelectOption>, added: SelectOption)
    requires
        distinct_codes(opts),
        added.code is Some,
        !codes(opts).contains(added.code.unwrap()@),
    ensures
        distinct_codes(opts.push(added)),
{
    let n = opts.push(added);
    assert forall|i: int, j: int| 0 <= i < j < n.len() implies effective_code_spec(#[trigger] n[i]) != effective_code_spec(#[trigger] n[j]) by {
        if j == opts.len() {
            assert(codes(opts)[i] == effective_code_spec(opts[i]));
        } else {
            assert(n[i] == opts[i] && n[j] == opts[j]);
        }
    }
}

} // verus!
