//! Storage rules: internal IDs, shelf marks (cotes), counters, the series
//! registry. The YAML files themselves are read and written around these
//! functions; every decision about what goes into them is taken here.
//!
//! Layout of a library:
//! `<root>/collections/<slug>/_schema.yaml`, `_series.yaml`,
//! `_counters.yaml`, `<ID>.yaml`, and `<root>/images/<slug>/<ID>.webp`.
use vstd::prelude::*;
use vstd::multiset::Multiset;
use crate::model::{
    derive_code, derive_code_spec, effective_code_spec, field_spec, Counters, FieldDef, Item,
    Schema, SelectOption, Series, Statut,
};
use crate::text::{
    chars_of, first, format_padded, is_blank, is_digit, is_first, is_lower, lemma_first_none,
    lemma_first_some, lemma_lex_total, lemma_lex_trans, lemma_padded, lex_le, lex_le_exec,
    lowercase, owned, padded, push_char, parse_u64_chars, parse_u64_spec, slice_string, starts_with,
    str_eq, to_lowercase, trim_spec, all_digits, is_ascii_digit, is_ascii_lowercase, seq_eq, views,
};
use crate::import::{sort_dedup, strictly_sorted};
use crate::value::{str_of, StrMap, Value};

verus! {

/// A library: the root directory under which `collections/` lives.
#[derive(Debug, Clone)]
pub struct Library {
    pub root: String,
}

/// A shelf mark changed by a regeneration (a label to print again).
#[derive(Debug, Clone)]
pub struct CoteChange {
    pub id: String,
    pub old: Option<String>,
    pub new: String,
}

// ---------------------------------------------------------------------------
// Specifications
// ---------------------------------------------------------------------------

/// The value of field `k` of an item, if set.
pub open spec fn field_value(item: Item, k: Seq<char>) -> Option<Value> {
    if item.fields.view().dom().contains(k) {
        Some(item.fields.view()[k])
    } else {
        None
    }
}

/// The text of field `k`, when it is a string.
pub open spec fn field_text(item: Item, k: Seq<char>) -> Option<Seq<char>> {
    match field_value(item, k) {
        Some(v) => str_of(v),
        None => None,
    }
}

/// Number of leading ASCII digits.
pub open spec fn digit_run(s: Seq<char>) -> nat
    decreases s.len(),
{
    if s.len() == 0 || !is_digit(s[0]) {
        0
    } else {
        1 + digit_run(s.drop_first())
    }
}

/// The year part of a shelf mark: the four leading digits of the year
/// field, `0000` when there are not exactly four.
pub open spec fn year_part(year: Option<Seq<char>>) -> Seq<char> {
    match year {
        Some(s) => if digit_run(s) == 4 {
            s.take(4)
        } else {
            "0000"@
        },
        None => "0000"@,
    }
}

pub open spec fn option_is(v: Seq<char>) -> spec_fn(SelectOption) -> bool {
    |o: SelectOption| o.value@ == v
}

/// The genre code: the code of the matching option of the genre field,
/// else the code derived from the genre's text.
pub open spec fn genre_code(fs: Seq<FieldDef>, genre_field: Seq<char>, genre: Seq<char>) -> Seq<char> {
    match field_spec(fs, genre_field) {
        Some(f) => match first(f.options@, option_is(genre)) {
            Some(i) => effective_code_spec(f.options@[i]),
            None => derive_code_spec(genre),
        },
        None => derive_code_spec(genre),
    }
}

/// The `YYYY-GENRE` prefix of an item's shelf mark, when the schema has a
/// shelf-mark configuration.
pub open spec fn cote_prefix_spec(schema: Schema, item: Item) -> Option<Seq<char>> {
    match schema.cote {
        None => None,
        Some(c) => {
            let genre = match field_text(item, c.genre_field@) {
                Some(g) => g,
                None => Seq::empty(),
            };
            Some(year_part(field_text(item, c.year_field@)) + seq!['-'] + genre_code(
                schema.fields@,
                c.genre_field@,
                genre,
            ))
        },
    }
}

/// The last sequence number handed out for `prefix`.
pub open spec fn seq_of(counters: Counters, prefix: Seq<char>) -> nat {
    if counters.cotes.view().dom().contains(prefix) {
        counters.cotes.view()[prefix] as nat
    } else {
        0
    }
}

/// A shelf mark `prefix-NNNN`.
pub open spec fn cote_text(prefix: Seq<char>, seq: nat) -> Seq<char> {
    prefix + seq!['-'] + padded(seq, 4)
}

/// No shelf-mark counter is at its maximum.
pub open spec fn counters_room(c: Counters) -> bool {
    &&& c.cotes.wf()
    &&& forall|k: Seq<char>| #[trigger] c.cotes.view().dom().contains(k) ==> c.cotes.view()[k] < u64::MAX
}

/// `s` starts with `p`.
pub open spec fn has_prefix(s: Seq<char>, p: Seq<char>) -> bool {
    p.len() <= s.len() && s.subrange(0, p.len() as int) == p
}

/// `item` after an edit: new status and fields, and the location unless
/// it is blank.
pub open spec fn edited_item(item: Item, statut: Statut, emplacement: Option<String>, fields: StrMap<Value>) -> Item {
    Item {
        statut,
        fields,
        emplacement: match emplacement {
            Some(e) => if trim_spec(e@).len() == 0 {
                None
            } else {
                Some(e)
            },
            None => None,
        },
        ..item
    }
}

/// An owned item whose shelf mark is missing or no longer starts with
/// its current `YYYY-GENRE-` prefix.
pub open spec fn stale(schema: Schema, item: Item) -> bool {
    &&& item.statut == Statut::Possede
    &&& cote_prefix_spec(schema, item) is Some
    &&& match item.cote {
        None => true,
        Some(c) => !has_prefix(c@, cote_prefix_spec(schema, item).unwrap() + seq!['-']),
    }
}

/// Stale items of shelf-mark prefix `p`.
pub open spec fn stale_of(schema: Schema, p: Seq<char>) -> spec_fn(Item) -> bool {
    |it: Item| stale(schema, it) && cote_prefix_spec(schema, it) == Some(p)
}

/// How many of `items` are stale with prefix `p`.
pub open spec fn stale_with(schema: Schema, items: Seq<Item>, p: Seq<char>) -> nat {
    items.filter(stale_of(schema, p)).len()
}

/// The shelf mark that regeneration gives item `i`: the next number of its
/// prefix, after the stale items of that prefix before it.
pub open spec fn regenerated_cote(schema: Schema, c0: Counters, items: Seq<Item>, i: int) -> Seq<char> {
    let p = cote_prefix_spec(schema, items[i]).unwrap();
    cote_text(p, seq_of(c0, p) + stale_with(schema, items.take(i), p) + 1)
}

/// The shelf-mark counters after regeneration: each prefix advanced by
/// its stale items.
pub open spec fn regenerated_counters(schema: Schema, c0: Counters, items: Seq<Item>) -> Map<Seq<char>, u64> {
    Map::new(
        |p: Seq<char>| c0.cotes.view().dom().contains(p) || stale_with(schema, items, p) > 0,
        |p: Seq<char>| (seq_of(c0, p) + stale_with(schema, items, p)) as u64,
    )
}

/// A change as (internal ID, old shelf mark, new shelf mark).
pub open spec fn change_view(c: CoteChange) -> (Seq<char>, Option<Seq<char>>, Seq<char>) {
    (c.id@, crate::hydrate::opt_view(c.old), c.new@)
}

/// The changes of a regeneration, in the order of the items.
pub open spec fn regenerated_changes(schema: Schema, c0: Counters, items: Seq<Item>) -> Seq<(Seq<char>, Option<Seq<char>>, Seq<char>)>
    decreases items.len(),
{
    if items.len() == 0 {
        Seq::empty()
    } else {
        let i = items.len() - 1;
        let prev = regenerated_changes(schema, c0, items.drop_last());
        if stale(schema, items[i]) {
            prev.push((items[i].id@, crate::hydrate::opt_view(items[i].cote), regenerated_cote(schema, c0, items, i)))
        } else {
            prev
        }
    }
}

/// One more item adds one to the count of its prefix when it is stale.
proof fn lemma_stale_with_step(schema: Schema, items: Seq<Item>, i: int)
    requires
        0 <= i < items.len(),
    ensures
        forall|p: Seq<char>| #[trigger] stale_with(schema, items.take(i + 1), p) == stale_with(schema, items.take(i), p)
            + if stale(schema, items[i]) && cote_prefix_spec(schema, items[i]) == Some(p) { 1nat } else { 0nat },
        forall|p: Seq<char>| stale_with(schema, items.take(i), p) <= i ==> #[trigger] stale_with(schema, items.take(i + 1), p) <= i + 1,
{
    assert(items.take(i + 1) =~= items.take(i).push(items[i]));
    assert forall|p: Seq<char>| #[trigger] stale_with(schema, items.take(i + 1), p) == stale_with(schema, items.take(i), p)
        + if stale(schema, items[i]) && cote_prefix_spec(schema, items[i]) == Some(p) { 1nat } else { 0nat } by {
        items.take(i).lemma_filter_push(items[i], stale_of(schema, p));
    }
}

/// A field value that counts as missing for a required field.
pub open spec fn missing(v: Option<Value>) -> bool {
    match v {
        None => true,
        Some(Value::Null) => true,
        Some(Value::Str(s)) => trim_spec(s@).len() == 0,
        Some(_) => false,
    }
}

pub open spec fn missing_required(fields: StrMap<Value>) -> spec_fn(FieldDef) -> bool {
    |f: FieldDef|
        f.required && missing(
            if fields.view().dom().contains(f.key@) {
                Some(fields.view()[f.key@])
            } else {
                None
            },
        )
}

/// The outcome of the required-field check.
pub open spec fn validate_fields_spec(schema: Schema, fields: StrMap<Value>) -> Result<(), Seq<char>> {
    match first(schema.fields@, missing_required(fields)) {
        Some(i) => Err("le champ « "@ + schema.fields@[i].label@ + " » est obligatoire"@),
        None => Ok(()),
    }
}

/// An internal ID: the schema prefix, a dash and the sequence on five digits.
pub open spec fn id_text(prefix: Seq<char>, n: nat) -> Seq<char> {
    prefix + seq!['-'] + padded(n, 5)
}

/// The characters after the last `-` (all of `s` when there is none).
pub open spec fn after_last_dash(s: Seq<char>) -> Seq<char>
    decreases s.len(),
{
    if s.len() == 0 {
        s
    } else if s.last() == '-' {
        Seq::empty()
    } else {
        after_last_dash(s.drop_last()).push(s.last())
    }
}

/// The characters before the last `-`, when there is one.
pub open spec fn before_last_dash(s: Seq<char>) -> Option<Seq<char>>
    decreases s.len(),
{
    if s.len() == 0 {
        None
    } else if s.last() == '-' {
        Some(s.drop_last())
    } else {
        before_last_dash(s.drop_last())
    }
}

/// The sequence number that an internal ID ends with.
pub open spec fn id_seq(id: Seq<char>) -> Option<u64> {
    parse_u64_spec(after_last_dash(id))
}

/// The prefix and the sequence number of a shelf mark.
pub open spec fn cote_parts(c: Seq<char>) -> Option<(Seq<char>, u64)> {
    match before_last_dash(c) {
        Some(p) => match parse_u64_spec(after_last_dash(c)) {
            Some(n) => Some((p, n)),
            None => None,
        },
        None => None,
    }
}

/// `next_id` rebuilt from the items: the largest ID sequence number.
pub open spec fn rebuilt_next_id(items: Seq<Item>) -> u64
    decreases items.len(),
{
    if items.len() == 0 {
        0
    } else {
        let m = rebuilt_next_id(items.drop_last());
        match id_seq(items.last().id@) {
            Some(n) => if n > m {
                n
            } else {
                m
            },
            None => m,
        }
    }
}

/// Shelf-mark counters rebuilt from the items: per prefix, the largest
/// sequence number.
pub open spec fn rebuilt_cotes(items: Seq<Item>) -> Map<Seq<char>, u64>
    decreases items.len(),
{
    if items.len() == 0 {
        Map::empty()
    } else {
        let m = rebuilt_cotes(items.drop_last());
        match items.last().cote {
            Some(c) => match cote_parts(c@) {
                Some((p, n)) => {
                    let old = if m.dom().contains(p) {
                        m[p]
                    } else {
                        0
                    };
                    m.insert(p, if n > old { n } else { old })
                },
                None => m,
            },
            None => m,
        }
    }
}

/// The key by which the series registry is sorted.
pub open spec fn series_key(s: Series) -> Seq<char> {
    lowercase(s.nom@)
}

pub open spec fn sorted_by_name(s: Seq<Series>) -> bool {
    forall|i: int, j: int| 0 <= i < j < s.len() ==> lex_le(series_key(#[trigger] s[i]), series_key(#[trigger] s[j]))
}

/// `r` takes the series of `v` in the order `idx`, each once, and series
/// of the same name keep the order they had in `v`.
pub open spec fn stable_order(v: Seq<Series>, r: Seq<Series>, idx: Seq<int>) -> bool {
    &&& r.len() == v.len()
    &&& idx.len() == r.len()
    &&& forall|q: int| 0 <= q < r.len() ==> 0 <= #[trigger] idx[q] < v.len() && r[q] == v[idx[q]]
    &&& forall|a: int, b: int| 0 <= a < b < r.len() ==> #[trigger] idx[a] != #[trigger] idx[b]
    &&& forall|a: int, b: int|
        0 <= a < b < r.len() && series_key(#[trigger] r[a]) == series_key(#[trigger] r[b]) ==> idx[a] < idx[b]
}

proof fn lemma_stable_order(v: Seq<Series>, r: Seq<Series>, idx: Seq<int>)
    requires
        stable_order(v, r, idx),
    ensures
        exists|x: Seq<int>| #[trigger] stable_order(v, r, x),
{
}

pub open spec fn same_id(id: Seq<char>) -> spec_fn(Series) -> bool {
    |s: Series| s.id@ == id
}

/// The registry with `one` in place of the first series of the same id,
/// or appended.
pub open spec fn upserted(all: Seq<Series>, one: Series) -> Seq<Series> {
    match first(all, same_id(one.id@)) {
        Some(k) => all.update(k, one),
        None => all.push(one),
    }
}

// ---------------------------------------------------------------------------
// Lemmas on digits and dashes
// ---------------------------------------------------------------------------

pub proof fn lemma_after_last_dash_digits(a: Seq<char>, d: Seq<char>)
    requires
        all_digits(d),
    ensures
        after_last_dash(a + seq!['-'] + d) == d,
        before_last_dash(a + seq!['-'] + d) == Some(a),
    decreases d.len(),
{
    let s = a + seq!['-'] + d;
    if d.len() == 0 {
        assert(s.drop_last() =~= a);
        assert(s.last() == '-');
        assert(d =~= Seq::<char>::empty());
    } else {
        assert(all_digits(d.drop_last()));
        lemma_after_last_dash_digits(a, d.drop_last());
        assert(s.drop_last() =~= a + seq!['-'] + d.drop_last());
        assert(s.last() == d.last());
        assert(is_digit(d.last()));
        assert(after_last_dash(s) =~= d);
    }
}

/// The sequence number of an ID made from `prefix` and `n`.
pub proof fn lemma_id_seq(prefix: Seq<char>, n: u64)
    ensures
        id_seq(id_text(prefix, n as nat)) == Some(n),
{
    lemma_padded(n as nat, 5);
    lemma_after_last_dash_digits(prefix, padded(n as nat, 5));
}

/// The parts of a shelf mark made from `prefix` and `n`.
pub proof fn lemma_cote_parts(prefix: Seq<char>, n: u64)
    ensures
        cote_parts(cote_text(prefix, n as nat)) == Some((prefix, n)),
        has_prefix(cote_text(prefix, n as nat), prefix + seq!['-']),
{
    lemma_padded(n as nat, 4);
    lemma_after_last_dash_digits(prefix, padded(n as nat, 4));
    let c = cote_text(prefix, n as nat);
    assert(c.subrange(0, (prefix + seq!['-']).len() as int) =~= prefix + seq!['-']);
}

// ---------------------------------------------------------------------------
// Exec helpers
// ---------------------------------------------------------------------------

fn last_dash(cs: &[char]) -> (r: Option<usize>)
    ensures
        match r {
            Some(i) => i < cs@.len() && cs@[i as int] == '-' && after_last_dash(cs@) == cs@.subrange(
                i + 1,
                cs@.len() as int,
            ) && before_last_dash(cs@) == Some(cs@.subrange(0, i as int)),
            None => after_last_dash(cs@) == cs@ && before_last_dash(cs@).is_none(),
        },
{
    let mut k = cs.len();
    assert(cs@.take(k as int) =~= cs@);
    assert(cs@.subrange(k as int, cs@.len() as int) =~= Seq::<char>::empty());
    while k > 0
        invariant
            k <= cs@.len(),
            forall|t: int| k <= t < cs@.len() ==> cs@[t] != '-',
            after_last_dash(cs@) == after_last_dash(cs@.take(k as int)) + cs@.subrange(k as int, cs@.len() as int),
            before_last_dash(cs@) == before_last_dash(cs@.take(k as int)),
        decreases k,
    {
        let ghost pre = cs@.take(k as int);
        assert(pre.drop_last() =~= cs@.take(k - 1));
        assert(pre.last() == cs@[k - 1]);
        if cs[k - 1] == '-' {
            assert(after_last_dash(pre) =~= Seq::<char>::empty());
            assert(cs@.subrange(k as int, cs@.len() as int) =~= cs@.subrange(k - 1 + 1, cs@.len() as int));
            return Some(k - 1);
        }
        assert(cs@.subrange(k - 1, cs@.len() as int) =~= seq![cs@[k - 1]] + cs@.subrange(k as int, cs@.len() as int));
        assert(after_last_dash(pre) =~= after_last_dash(cs@.take(k - 1)).push(cs@[k - 1]));
        k = k - 1;
    }
    assert(cs@.take(0) =~= Seq::<char>::empty());
    assert(cs@.subrange(0, cs@.len() as int) =~= cs@);
    None
}

/// The sequence number that an internal ID ends with.
pub fn id_sequence(id: &str) -> (r: Option<u64>)
    ensures
        r == id_seq(id@),
{
    let cs = chars_of(id);
    assert(cs@.len() == cs.len());
    match last_dash(&cs) {
        Some(i) => {
            let tail = slice_of(&cs, i + 1, cs.len());
            parse_u64_chars(&tail)
        },
        None => parse_u64_chars(&cs),
    }
}

fn slice_of(cs: &[char], from: usize, to: usize) -> (r: Vec<char>)
    requires
        from <= to <= cs@.len(),
    ensures
        r@ == cs@.subrange(from as int, to as int),
{
    let mut v: Vec<char> = Vec::new();
    let mut i = from;
    while i < to
        invariant
            from <= i <= to <= cs@.len(),
            v@ == cs@.subrange(from as int, i as int),
        decreases to - i,
    {
        v.push(cs[i]);
        i = i + 1;
        assert(v@ =~= cs@.subrange(from as int, i as int));
    }
    v
}

/// The prefix and sequence number of a shelf mark (`rsplit_once('-')`,
/// then the number).
pub fn split_cote(c: &str) -> (r: Option<(String, u64)>)
    ensures
        match r {
            Some((p, n)) => cote_parts(c@) == Some((p@, n)),
            None => cote_parts(c@).is_none(),
        },
{
    let cs = chars_of(c);
    assert(cs@.len() == cs.len());
    match last_dash(&cs) {
        Some(i) => {
            let tail = slice_of(&cs, i + 1, cs.len());
            match parse_u64_chars(&tail) {
                Some(n) => Some((slice_string(&cs, 0, i), n)),
                None => None,
            }
        },
        None => None,
    }
}

/// The text of field `k` of the item, when it is a string.
fn text_field<'a>(item: &'a Item, k: &str) -> (r: Option<&'a String>)
    requires
        item.fields.wf(),
    ensures
        match r {
            Some(s) => field_text(*item, k@) == Some(s@),
            None => field_text(*item, k@).is_none(),
        },
{
    match item.fields.get(k) {
        Some(v) => v.as_str(),
        None => None,
    }
}

pub(crate) fn digit_run_exec(cs: &[char]) -> (r: usize)
    ensures
        r == digit_run(cs@),
        r <= cs@.len(),
{
    let mut i: usize = 0;
    assert(cs@.skip(0) =~= cs@);
    while i < cs.len() && is_ascii_digit(cs[i])
        invariant
            i <= cs@.len(),
            digit_run(cs@) == i + digit_run(cs@.skip(i as int)),
        decreases cs@.len() - i,
    {
        assert(cs@.skip(i as int).drop_first() =~= cs@.skip(i + 1));
        i = i + 1;
    }
    if i < cs.len() {
        assert(!is_digit(cs@.skip(i as int)[0]));
    } else {
        assert(cs@.skip(i as int).len() == 0);
    }
    i
}

fn year_of(year: Option<&String>) -> (r: String)
    ensures
        r@ == year_part(
            match year {
                Some(s) => Some(s@),
                None => None,
            },
        ),
{
    match year {
        Some(s) => {
            let cs = chars_of(s.as_str());
            let n = digit_run_exec(&cs);
            if n == 4 {
                slice_string(&cs, 0, 4)
            } else {
                owned("0000")
            }
        },
        None => owned("0000"),
    }
}

fn genre_code_exec(schema: &Schema, genre_field: &str, genre: &str) -> (r: String)
    ensures
        r@ == genre_code(schema.fields@, genre_field@, genre@),
{
    match schema.field(genre_field) {
        Some(f) => {
            let mut i: usize = 0;
            while i < f.options.len()
                invariant
                    i <= f.options@.len(),
                    field_spec(schema.fields@, genre_field@) == Some(*f),
                    forall|j: int| 0 <= j < i ==> !(option_is(genre@))(#[trigger] f.options@[j]),
                decreases f.options@.len() - i,
            {
                if str_eq(f.options[i].value.as_str(), genre) {
                    proof {
                        lemma_first_some(f.options@, option_is(genre@), i as int);
                    }
                    return f.options[i].effective_code();
                }
                i = i + 1;
            }
            proof {
                lemma_first_none(f.options@, option_is(genre@));
            }
            derive_code(genre)
        },
        None => derive_code(genre),
    }
}

// ---------------------------------------------------------------------------
// Library rules
// ---------------------------------------------------------------------------

/// An ASCII decimal digit.
pub open spec fn is_digit_char(c: char) -> bool {
    '0' <= c && c <= '9'
}

/// The number of two decimal digits.
pub open spec fn two_digits(a: char, b: char) -> int {
    (a as int - 48) * 10 + (b as int - 48)
}

/// A date as chrono writes `%Y-%m-%d`: the year (four digits at least, a
/// `+` in front beyond 9999), then a month from 01 to 12 and a day from 01
/// to 31, each after a `-`.
pub open spec fn date_text(s: Seq<char>) -> bool {
    let l = s.len() as int;
    &&& l >= 10
    &&& s[l - 6] == '-' && s[l - 3] == '-'
    &&& is_digit_char(s[l - 5]) && is_digit_char(s[l - 4]) && is_digit_char(s[l - 2]) && is_digit_char(s[l - 1])
    &&& 1 <= two_digits(s[l - 5], s[l - 4]) <= 12
    &&& 1 <= two_digits(s[l - 2], s[l - 1]) <= 31
    &&& forall|k: int| 0 <= k < l - 6 ==> is_digit_char(#[trigger] s[k]) || (k == 0 && s[k] == '+')
}

/// Today's date, `YYYY-MM-DD`, in the machine's local time zone
/// (`chrono::Local::now().format("%Y-%m-%d")`). Which day it is depends on
/// the clock and the time zone and is not claimed; only the shape that
/// chrono's `%Y-%m-%d` gives every date.
#[verifier::external_body]
pub(crate) fn today() -> (r: String)
    ensures
        date_text(r@),
{
    chrono::Local::now().format("%Y-%m-%d").to_string()
}

impl Library {
    /// Opens an existing library: `has_collections_dir` tells whether
    /// `<root>/collections/` is a directory.
    pub fn open(root: String, has_collections_dir: bool) -> (r: Result<Library, String>)
        ensures
            match r {
                Ok(lib) => has_collections_dir && lib.root@ == root@,
                Err(e) => !has_collections_dir && e@ == root@
                    + " n'est pas une bibliothèque (dossier collections/ absent)"@,
            },
    {
        if !has_collections_dir {
            let mut e = root;
            e.append(" n'est pas une bibliothèque (dossier collections/ absent)");
            return Err(e);
        }
        Ok(Library { root })
    }

    /// The `YYYY-GENRE` prefix of the item's shelf mark, or `None` when the
    /// schema has no shelf-mark configuration.
    pub fn cote_prefix(schema: &Schema, item: &Item) -> (r: Option<String>)
        requires
            item.fields.wf(),
        ensures
            match r {
                Some(p) => cote_prefix_spec(*schema, *item) == Some(p@),
                None => cote_prefix_spec(*schema, *item).is_none(),
            },
    {
        match &schema.cote {
            None => None,
            Some(config) => {
                let yt = text_field(item, config.year_field.as_str());
                let year = year_of(yt);
                assert(year@ == year_part(field_text(*item, config.year_field@)));
                let genre: &str = match text_field(item, config.genre_field.as_str()) {
                    Some(g) => g.as_str(),
                    None => "",
                };
                proof {
                    reveal_strlit("");
                }
                assert(genre@ == (match field_text(*item, config.genre_field@) { Some(g) => g, None => Seq::empty() }));
                let code = genre_code_exec(schema, config.genre_field.as_str(), genre);
                let mut p = year;
                push_char(&mut p, '-');
                p.append(code.as_str());
                Some(p)
            },
        }
    }

    /// Hands out the next shelf mark of the item's prefix; without a
    /// shelf-mark configuration the shelf mark is the internal ID.
    pub fn allocate_cote(schema: &Schema, item: &Item, counters: &mut Counters) -> (r: String)
        requires
            item.fields.wf(),
            counters_room(*old(counters)),
        ensures
            final(counters).next_id == old(counters).next_id,
            final(counters).cotes.wf(),
            match cote_prefix_spec(*schema, *item) {
                None => r@ == item.id@ && final(counters).cotes.view() == old(counters).cotes.view(),
                Some(p) => {
                    &&& r@ == cote_text(p, seq_of(*old(counters), p) + 1)
                    &&& final(counters).cotes.view() == old(counters).cotes.view().insert(
                        p,
                        (seq_of(*old(counters), p) + 1) as u64,
                    )
                },
            },
    {
        let prefix = match Self::cote_prefix(schema, item) {
            Some(p) => p,
            None => return item.id.clone(),
        };
        let last: u64 = match counters.cotes.get(prefix.as_str()) {
            Some(n) => *n,
            None => 0,
        };
        let next = last + 1;
        counters.cotes.insert(prefix.clone(), next);
        let mut c = prefix;
        push_char(&mut c, '-');
        let num = format_padded(next, 4);
        c.append(num.as_str());
        c
    }

    /// Checks the schema's required fields.
    pub fn validate_fields(schema: &Schema, fields: &StrMap<Value>) -> (r: Result<(), String>)
        requires
            fields.wf(),
        ensures
            match r {
                Ok(()) => validate_fields_spec(*schema, *fields) == Ok::<(), Seq<char>>(()),
                Err(e) => validate_fields_spec(*schema, *fields) == Err::<(), Seq<char>>(e@),
            },
    {
        let mut i: usize = 0;
        while i < schema.fields.len()
            invariant
                i <= schema.fields@.len(),
                fields.wf(),
                forall|j: int| 0 <= j < i ==> !(missing_required(*fields))(#[trigger] schema.fields@[j]),
            decreases schema.fields@.len() - i,
        {
            let def = &schema.fields[i];
            if def.required {
                let miss = match fields.get(def.key.as_str()) {
                    None => true,
                    Some(Value::Null) => true,
                    Some(Value::Str(s)) => is_blank(s.as_str()),
                    Some(_) => false,
                };
                if miss {
                    proof {
                        lemma_first_some(schema.fields@, missing_required(*fields), i as int);
                    }
                    let mut e = owned("le champ « ");
                    e.append(def.label.as_str());
                    e.append(" » est obligatoire");
                    return Err(e);
                }
            }
            i = i + 1;
        }
        proof {
            lemma_first_none(schema.fields@, missing_required(*fields));
        }
        Ok(())
    }

    /// Creates an item dated `today`: checks the required fields, hands out
    /// the next internal ID and, for an owned item, its shelf mark.
    pub fn create_item_on(
        schema: &Schema,
        counters: &mut Counters,
        statut: Statut,
        fields: StrMap<Value>,
        today: String,
    ) -> (r: Result<Item, String>)
        requires
            fields.wf(),
            counters_room(*old(counters)),
            old(counters).next_id < u64::MAX,
        ensures
            match r {
                Err(e) => {
                    &&& validate_fields_spec(*schema, fields) == Err::<(), Seq<char>>(e@)
                    &&& *final(counters) == *old(counters)
                },
                Ok(item) => {
                    let n = old(counters).next_id + 1;
                    &&& validate_fields_spec(*schema, fields) == Ok::<(), Seq<char>>(())
                    &&& final(counters).next_id == n
                    &&& item.id@ == id_text(schema.id_prefix@, n as nat)
                    &&& item.statut == statut
                    &&& item.emplacement.is_none()
                    &&& item.etiquette.is_none()
                    &&& item.date_ajout@ == today@
                    &&& item.fields == fields
                    &&& !stale(*schema, item)
                    &&& final(counters).cotes.wf()
                    &&& (statut == Statut::Souhaite ==> item.cote.is_none()
                        && final(counters).cotes.view() == old(counters).cotes.view())
                    &&& (statut == Statut::Possede ==> match cote_prefix_spec(*schema, item) {
                        None => item.cote is Some && item.cote.unwrap()@ == item.id@ && final(counters).cotes.view()
                            == old(counters).cotes.view(),
                        Some(p) => {
                            &&& item.cote is Some
                            &&& item.cote.unwrap()@ == cote_text(p, seq_of(*old(counters), p) + 1)
                            &&& final(counters).cotes.view() == old(counters).cotes.view().insert(
                                p,
                                (seq_of(*old(counters), p) + 1) as u64,
                            )
                        },
                    })
                },
            },
    {
        match Self::validate_fields(schema, &fields) {
            Err(e) => return Err(e),
            Ok(()) => {},
        }
        counters.next_id = counters.next_id + 1;
        let mut id = schema.id_prefix.clone();
        push_char(&mut id, '-');
        let num = format_padded(counters.next_id, 5);
        id.append(num.as_str());
        let mut item = Item {
            id,
            cote: None,
            statut,
            emplacement: None,
            etiquette: None,
            date_ajout: today,
            fields,
        };
        if statut == Statut::Possede {
            let c = Self::allocate_cote(schema, &item, counters);
            proof {
                if let Some(p) = cote_prefix_spec(*schema, item) {
                    assert(c@.subrange(0, p.len() as int + 1) =~= p + seq!['-']);
                }
            }
            item.cote = Some(c);
        }
        Ok(item)
    }

    /// Creates an item dated today, as the clock gives it (see
    /// `create_item_on`).
    pub fn create_item(
        schema: &Schema,
        counters: &mut Counters,
        statut: Statut,
        fields: StrMap<Value>,
    ) -> (r: Result<Item, String>)
        requires
            fields.wf(),
            counters_room(*old(counters)),
            old(counters).next_id < u64::MAX,
        ensures
            match r {
                Err(e) => validate_fields_spec(*schema, fields) == Err::<(), Seq<char>>(e@)
                    && *final(counters) == *old(counters),
                Ok(item) => {
                    let n = old(counters).next_id + 1;
                    &&& validate_fields_spec(*schema, fields) == Ok::<(), Seq<char>>(())
                    &&& final(counters).next_id == n
                    &&& item.id@ == id_text(schema.id_prefix@, n as nat)
                    &&& item.statut == statut
                    &&& item.emplacement.is_none()
                    &&& item.etiquette.is_none()
                    &&& date_text(item.date_ajout@)
                    &&& item.fields == fields
                    &&& !stale(*schema, item)
                    &&& final(counters).cotes.wf()
                    &&& (statut == Statut::Souhaite <==> item.cote.is_none())
                    &&& (statut == Statut::Souhaite ==> final(counters).cotes.view() == old(counters).cotes.view())
                    &&& (statut == Statut::Possede ==> match cote_prefix_spec(*schema, item) {
                        None => item.cote.unwrap()@ == item.id@ && final(counters).cotes.view()
                            == old(counters).cotes.view(),
                        Some(p) => {
                            &&& item.cote.unwrap()@ == cote_text(p, seq_of(*old(counters), p) + 1)
                            &&& final(counters).cotes.view() == old(counters).cotes.view().insert(
                                p,
                                (seq_of(*old(counters), p) + 1) as u64,
                            )
                        },
                    })
                },
            },
    {
        let day = today();
        Self::create_item_on(schema, counters, statut, fields, day)
    }

    /// Applies an edit to a loaded item (the required fields having been
    /// checked). Returns whether the item needs a new shelf mark: it became
    /// owned without one, or its year or genre no longer match its shelf
    /// mark. The internal ID never changes.
    pub fn edit_item(
        schema: &Schema,
        item: &mut Item,
        statut: Statut,
        emplacement: Option<String>,
        fields: StrMap<Value>,
    ) -> (needs_cote: bool)
        requires
            fields.wf(),
        ensures
            final(item).id == old(item).id,
            final(item).cote == old(item).cote,
            final(item).etiquette == old(item).etiquette,
            final(item).date_ajout == old(item).date_ajout,
            final(item).statut == statut,
            final(item).fields == fields,
            match emplacement {
                Some(e) => if trim_spec(e@).len() == 0 {
                    final(item).emplacement.is_none()
                } else {
                    final(item).emplacement == Some(e)
                },
                None => final(item).emplacement.is_none(),
            },
            needs_cote == stale(*schema, *final(item)),
    {
        item.statut = statut;
        item.emplacement = match emplacement {
            Some(e) => if is_blank(e.as_str()) {
                None
            } else {
                Some(e)
            },
            None => None,
        };
        item.fields = fields;
        Self::is_stale(schema, item)
    }

    /// Edits an item and gives it a new shelf mark when one is due: when it
    /// became owned without one, or its year or genre no longer match its
    /// mark. Fields missing a required value are refused and nothing changes.
    pub fn update_item(
        schema: &Schema,
        counters: &mut Counters,
        item: &mut Item,
        statut: Statut,
        emplacement: Option<String>,
        fields: StrMap<Value>,
    ) -> (r: Result<(), String>)
        requires
            fields.wf(),
            counters_room(*old(counters)),
        ensures
            match r {
                Err(e) => {
                    &&& validate_fields_spec(*schema, fields) == Err::<(), Seq<char>>(e@)
                    &&& *final(item) == *old(item)
                    &&& *final(counters) == *old(counters)
                },
                Ok(()) => {
                    let e = edited_item(*old(item), statut, emplacement, fields);
                    &&& validate_fields_spec(*schema, fields) == Ok::<(), Seq<char>>(())
                    &&& !stale(*schema, *final(item))
                    &&& final(counters).next_id == old(counters).next_id
                    &&& final(counters).cotes.wf()
                    &&& if stale(*schema, e) {
                        let p = cote_prefix_spec(*schema, e).unwrap();
                        &&& *final(item) == (Item { cote: final(item).cote, ..e })
                        &&& final(item).cote is Some
                        &&& final(item).cote.unwrap()@ == cote_text(p, seq_of(*old(counters), p) + 1)
                        &&& final(counters).cotes.view() == old(counters).cotes.view().insert(
                            p,
                            (seq_of(*old(counters), p) + 1) as u64,
                        )
                    } else {
                        &&& *final(item) == e
                        &&& *final(counters) == *old(counters)
                    }
                },
            },
    {
        match Self::validate_fields(schema, &fields) {
            Err(e) => return Err(e),
            Ok(()) => {},
        }
        let needs = Self::edit_item(schema, item, statut, emplacement, fields);
        if needs {
            let c = Self::allocate_cote(schema, item, counters);
            proof {
                law_allocated_cote_is_current(*schema, *item, c, seq_of(*old(counters), cote_prefix_spec(*schema, *item).unwrap()) + 1);
            }
            item.cote = Some(c);
        }
        Ok(())
    }

    /// Whether the item is owned and its shelf mark is missing or does not
    /// start with its current prefix.
    pub fn is_stale(schema: &Schema, item: &Item) -> (r: bool)
        requires
            item.fields.wf(),
        ensures
            r == stale(*schema, *item),
    {
        if item.statut != Statut::Possede {
            return false;
        }
        match Self::cote_prefix(schema, item) {
            None => false,
            Some(p) => match &item.cote {
                None => true,
                Some(c) => {
                    let mut pd = p;
                    push_char(&mut pd, '-');
                    let cc = chars_of(c.as_str());
                    let pc = chars_of(pd.as_str());
                    assert(pc@ =~= cote_prefix_spec(*schema, *item).unwrap() + seq!['-']);
                    !starts_with(&cc, &pc)
                },
            },
        }
    }

    /// Regenerates the shelf mark of every stale owned item (after a data
    /// fix or a change of codes in the schema), in order. Returns the
    /// changes: the labels to print again.
    pub fn regenerate_stale_cotes(schema: &Schema, counters: &mut Counters, items: &mut Vec<Item>) -> (changes: Vec<CoteChange>)
        requires
            counters_room(*old(counters)),
            old(items)@.len() < u64::MAX,
            forall|i: int| 0 <= i < old(items)@.len() ==> (#[trigger] old(items)@[i]).fields.wf(),
            // Room for one regeneration per item in every counter.
            forall|k: Seq<char>| #[trigger] old(counters).cotes.view().dom().contains(k) ==>
                old(counters).cotes.view()[k] + old(items)@.len() < u64::MAX,
        ensures
            final(items)@.len() == old(items)@.len(),
            forall|i: int| 0 <= i < final(items)@.len() ==> {
                &&& (#[trigger] final(items)@[i]).id == old(items)@[i].id
                &&& final(items)@[i].statut == old(items)@[i].statut
                &&& final(items)@[i].fields == old(items)@[i].fields
                &&& final(items)@[i].fields.wf()
                &&& !stale(*schema, final(items)@[i])
                &&& (!stale(*schema, old(items)@[i]) ==> final(items)@[i] == old(items)@[i])
            },
            (changes@.len() == 0) == (forall|i: int| 0 <= i < old(items)@.len() ==> !stale(*schema, #[trigger] old(items)@[i])),
            forall|i: int| 0 <= i < final(items)@.len() ==> #[trigger] final(items)@[i] == (Item {
                cote: final(items)@[i].cote,
                ..old(items)@[i]
            }),
            forall|i: int| 0 <= i < final(items)@.len() && stale(*schema, old(items)@[i]) ==> ((#[trigger] final(items)@[i]).cote
                matches Some(c) && c@ == regenerated_cote(*schema, *old(counters), old(items)@, i)),
            forall|i: int| 0 <= i < final(items)@.len() && stale(*schema, old(items)@[i]) ==> (#[trigger] final(items)@[i]).cote
                != old(items)@[i].cote,
            changes@.map_values(|c: CoteChange| change_view(c)) == regenerated_changes(*schema, *old(counters), old(items)@),
            final(counters).cotes.view() == regenerated_counters(*schema, *old(counters), old(items)@),
            final(counters).next_id == old(counters).next_id,
            counters_room(*final(counters)),
    {
        let ghost orig = items@;
        let ghost n = orig.len();
        // Take the items out in reverse order, then handle them in order.
        let mut rev: Vec<Item> = Vec::new();
        while items.len() > 0
            invariant
                items@ == orig.take(items@.len() as int),
                n == orig.len(),
                items@.len() + rev@.len() == n,
                forall|j: int| 0 <= j < rev@.len() ==> #[trigger] rev@[j] == orig[n - 1 - j],
            decreases items@.len(),
        {
            let ghost before = items@;
            let ghost before_rev = rev@;
            let x = items.pop().unwrap();
            assert(before[before.len() - 1] == orig.take(before.len() as int)[before.len() - 1]);
            assert(x == orig[before.len() - 1]);
            rev.push(x);
            assert(items@ =~= before.drop_last());
            assert(items@ =~= orig.take(items@.len() as int));
            assert forall|j: int| 0 <= j < rev@.len() implies #[trigger] rev@[j] == orig[n - 1 - j] by {
                if j < before_rev.len() {
                    assert(rev@[j] == before_rev[j]);
                }
            }
        }
        let mut changes: Vec<CoteChange> = Vec::new();
        let ghost c0 = *counters;
        proof {
            assert(orig.take(0) =~= Seq::<Item>::empty());
            assert forall|p: Seq<char>| #[trigger] stale_with(*schema, orig.take(0), p) == 0 by {
                assert(orig.take(0).filter(stale_of(*schema, p)) =~= Seq::<Item>::empty());
            }
            assert(counters.cotes.view() =~= regenerated_counters(*schema, c0, orig.take(0)));
            assert(changes@.map_values(|c: CoteChange| change_view(c)) =~= regenerated_changes(*schema, c0, orig.take(0)));
        }
        while rev.len() > 0
            invariant
                items@.len() + rev@.len() == n,
                n == orig.len(),
                n < u64::MAX,
                forall|j: int| 0 <= j < rev@.len() ==> #[trigger] rev@[j] == orig[n - 1 - j],
                forall|t: int| 0 <= t < n ==> (#[trigger] orig[t]).fields.wf(),
                forall|t: int| 0 <= t < items@.len() ==> {
                    &&& (#[trigger] items@[t]).id == orig[t].id
                    &&& items@[t].statut == orig[t].statut
                    &&& items@[t].fields == orig[t].fields
                    &&& items@[t].fields.wf()
                    &&& !stale(*schema, items@[t])
                    &&& (!stale(*schema, orig[t]) ==> items@[t] == orig[t])
                },
                counters_room(*counters),
                counters.next_id == c0.next_id,
                forall|k: Seq<char>| #[trigger] counters.cotes.view().dom().contains(k) ==>
                    counters.cotes.view()[k] + rev@.len() < u64::MAX,
                (changes@.len() == 0) == (forall|t: int| 0 <= t < items@.len() ==> !stale(*schema, #[trigger] orig[t])),
                forall|t: int| 0 <= t < items@.len() ==> #[trigger] items@[t] == (Item { cote: items@[t].cote, ..orig[t] }),
                forall|t: int| 0 <= t < items@.len() && stale(*schema, orig[t]) ==> ((#[trigger] items@[t]).cote
                    matches Some(c) && c@ == regenerated_cote(*schema, c0, orig, t)),
                changes@.map_values(|c: CoteChange| change_view(c)) == regenerated_changes(*schema, c0, orig.take(items@.len() as int)),
                counters.cotes.view() == regenerated_counters(*schema, c0, orig.take(items@.len() as int)),
                forall|p: Seq<char>| #[trigger] stale_with(*schema, orig.take(items@.len() as int), p) <= items@.len(),
                forall|k: Seq<char>| #[trigger] c0.cotes.view().dom().contains(k) ==> c0.cotes.view()[k] + n < u64::MAX,
            decreases rev@.len(),
        {
            let ghost i = items@.len() as int;
            let ghost before_rev = rev@;
            let ghost before_items = items@;
            let ghost before_changes = changes@;
            let ghost cb = *counters;
            let mut item = rev.pop().unwrap();
            assert(item == before_rev[before_rev.len() - 1]);
            assert(item == orig[i]);
            proof {
                lemma_stale_with_step(*schema, orig, i);
                assert(orig.take(i + 1).drop_last() =~= orig.take(i));
                assert(orig.take(i + 1)[i] == orig[i]);
            }
            if Self::is_stale(schema, &item) {
                let old = item.cote.clone();
                let ghost p = cote_prefix_spec(*schema, item).unwrap();
                let c = Self::allocate_cote(schema, &item, counters);
                proof {
                    assert(stale_with(*schema, orig.take(i), p) <= i);
                    if c0.cotes.view().dom().contains(p) {
                        assert(c0.cotes.view()[p] + n < u64::MAX);
                    }
                    assert(seq_of(cb, p) == seq_of(c0, p) + stale_with(*schema, orig.take(i), p));
                    lemma_cote_parts(p, (seq_of(cb, p) + 1) as u64);
                    assert forall|k: Seq<char>| #[trigger] counters.cotes.view().dom().contains(k) implies
                        counters.cotes.view()[k] + rev@.len() < u64::MAX by {
                        if k != p {
                            assert(cb.cotes.view().dom().contains(k));
                        }
                    }
                    assert(counters.cotes.view() =~= regenerated_counters(*schema, c0, orig.take(i + 1)));
                    assert(orig.take(i + 1).take(i) =~= orig.take(i));
                    assert(c@ == regenerated_cote(*schema, c0, orig, i));
                    assert(regenerated_cote(*schema, c0, orig.take(i + 1), i) == regenerated_cote(*schema, c0, orig, i));
                }
                item.cote = Some(c);
                assert(cote_prefix_spec(*schema, item) == Some(p));
                assert(!stale(*schema, item));
                let new = item.cote.clone().unwrap();
                let ch = CoteChange { id: item.id.clone(), old, new };
                changes.push(ch);
                items.push(item);
                proof {
                    assert(items@[i] == item);
                    assert(changes@.map_values(|c: CoteChange| change_view(c)) =~= before_changes.map_values(
                        |c: CoteChange| change_view(c),
                    ).push(change_view(ch)));
                    assert forall|t: int| 0 <= t < items@.len() implies #[trigger] items@[t] == (Item { cote: items@[t].cote, ..orig[t] }) by {
                        if t < i {
                            assert(items@[t] == before_items[t]);
                        }
                    }
                    assert forall|t: int| 0 <= t < items@.len() && stale(*schema, orig[t]) implies ((#[trigger] items@[t]).cote
                        matches Some(c) && c@ == regenerated_cote(*schema, c0, orig, t)) by {
                        if t < i {
                            assert(items@[t] == before_items[t]);
                        }
                    }
                }
            } else {
                items.push(item);
                proof {
                    assert(items@[i] == orig[i]);
                    assert(counters.cotes.view() =~= regenerated_counters(*schema, c0, orig.take(i + 1)));
                    assert forall|t: int| 0 <= t < items@.len() implies #[trigger] items@[t] == (Item { cote: items@[t].cote, ..orig[t] }) by {
                        if t < i {
                            assert(items@[t] == before_items[t]);
                        }
                    }
                    assert forall|t: int| 0 <= t < items@.len() && stale(*schema, orig[t]) implies ((#[trigger] items@[t]).cote
                        matches Some(c) && c@ == regenerated_cote(*schema, c0, orig, t)) by {
                        if t < i {
                            assert(items@[t] == before_items[t]);
                        }
                    }
                }
            }
        }
        assert(orig.take(n as int) =~= orig);
        changes
    }

    /// Rebuilds the counters from the items: the largest ID sequence
    /// number, and per prefix the largest shelf-mark sequence number.
    pub fn rebuild_counters(items: &[Item]) -> (r: Counters)
        ensures
            r.next_id == rebuilt_next_id(items@),
            r.cotes.wf(),
            r.cotes.view() == rebuilt_cotes(items@),
    {
        let mut counters = Counters::new();
        let mut i: usize = 0;
        while i < items.len()
            invariant
                i <= items@.len(),
                counters.next_id == rebuilt_next_id(items@.take(i as int)),
                counters.cotes.wf(),
                counters.cotes.view() == rebuilt_cotes(items@.take(i as int)),
            decreases items@.len() - i,
        {
            let ghost pre = items@.take(i as int);
            let ghost next = items@.take(i + 1);
            assert(next.drop_last() =~= pre);
            assert(next.last() == items@[i as int]);
            let item = &items[i];
            match id_sequence(item.id.as_str()) {
                Some(n) => {
                    if n > counters.next_id {
                        counters.next_id = n;
                    }
                },
                None => {},
            }
            match &item.cote {
                Some(c) => match split_cote(c.as_str()) {
                    Some((p, n)) => {
                        let old: u64 = match counters.cotes.get(p.as_str()) {
                            Some(v) => *v,
                            None => 0,
                        };
                        let v = if n > old { n } else { old };
                        counters.cotes.insert(p, v);
                    },
                    None => {},
                },
                None => {},
            }
            i = i + 1;
        }
        assert(items@.take(items@.len() as int) =~= items@);
        counters
    }

    /// Inserts or replaces (same id) a series in the registry, then sorts
    /// the registry by name, case-insensitively.
    pub fn upsert_series(all: Vec<Series>, one: Series) -> (r: Vec<Series>)
        ensures
            r@.to_multiset() == upserted(all@, one).to_multiset(),
            sorted_by_name(r@),
            exists|idx: Seq<int>| #[trigger] stable_order(upserted(all@, one), r@, idx),
    {
        let mut all = all;
        let ghost orig = all@;
        match find_series(&all, one.id.as_str()) {
            Some(k) => {
                all.set(k, one);
            },
            None => {
                all.push(one);
            },
        }
        assert(all@ == upserted(orig, one));
        sort_series(all)
    }

    /// Marks the item's label as printed: it remembers the current shelf mark.
    pub fn mark_labeled(item: &mut Item)
        ensures
            *final(item) == (Item { etiquette: old(item).cote, ..*old(item) }),
    {
        item.etiquette = item.cote.clone();
    }
}

/// Position of the first series with id `id`.
pub(crate) fn find_series(all: &Vec<Series>, id: &str) -> (r: Option<usize>)
    ensures
        match r {
            Some(k) => first(all@, same_id(id@)) == Some(k as int) && k < all@.len(),
            None => first(all@, same_id(id@)).is_none(),
        },
{
    let mut k: usize = 0;
    while k < all.len()
        invariant
            k <= all@.len(),
            forall|j: int| 0 <= j < k ==> !(same_id(id@))(#[trigger] all@[j]),
        decreases all@.len() - k,
    {
        if str_eq(all[k].id.as_str(), id) {
            proof {
                lemma_first_some(all@, same_id(id@), k as int);
            }
            return Some(k);
        }
        k = k + 1;
    }
    proof {
        lemma_first_none(all@, same_id(id@));
    }
    None
}

/// Sorts series by lower-cased name; equal names keep their order.
pub(crate) fn sort_series(v: Vec<Series>) -> (r: Vec<Series>)
    ensures
        r@.to_multiset() == v@.to_multiset(),
        sorted_by_name(r@),
        exists|idx: Seq<int>| #[trigger] stable_order(v@, r@, idx),
{
    broadcast use vstd::seq_lib::group_to_multiset_ensures, vstd::multiset::group_multiset_axioms;
    let mut src = v;
    let ghost orig = src@;
    let mut out: Vec<Series> = Vec::new();
    let mut keys: Vec<Vec<char>> = Vec::new();
    let ghost mut idx: Seq<int> = Seq::empty();
    assert(out@.to_multiset() =~= Multiset::<Series>::empty());
    assert(src@ == orig.take(src@.len() as int));
    while src.len() > 0
        invariant
            src@ == orig.take(src@.len() as int),
            src@.len() <= orig.len(),
            idx.len() == out@.len(),
            forall|q: int| 0 <= q < out@.len() ==> src@.len() <= #[trigger] idx[q] < orig.len() && out@[q] == orig[idx[q]],
            forall|a: int, b: int| 0 <= a < b < out@.len() ==> #[trigger] idx[a] != #[trigger] idx[b],
            forall|a: int, b: int|
                0 <= a < b < out@.len() && series_key(#[trigger] out@[a]) == series_key(#[trigger] out@[b]) ==> idx[a] < idx[b],
            keys@.len() == out@.len(),
            forall|j: int| 0 <= j < keys@.len() ==> (#[trigger] keys@[j])@ == series_key(out@[j]),
            sorted_by_name(out@),
            out@.to_multiset().add(src@.to_multiset()) == orig.to_multiset(),
        decreases src@.len(),
    {
        let ghost before_src = src@;
        let ghost before_out = out@;
        let ghost before_idx = idx;
        let s = src.pop().unwrap();
        assert(before_src == src@.push(s));
        let ghost m = src@.len() as int;
        assert(s == orig[m]) by {
            assert(before_src[m] == orig.take(before_src.len() as int)[m]);
        }
        assert(src@ =~= orig.take(m));
        let low = to_lowercase(s.nom.as_str());
        let k = chars_of(low.as_str());
        let mut p: usize = 0;
        while p < out.len() && !lex_le_exec(&k, &keys[p])
            invariant
                p <= out@.len(),
                keys@.len() == out@.len(),
                forall|j: int| 0 <= j < keys@.len() ==> (#[trigger] keys@[j])@ == series_key(out@[j]),
                forall|j: int| 0 <= j < p ==> lex_le(series_key(#[trigger] out@[j]), k@),
                forall|j: int| 0 <= j < p ==> !lex_le(k@, series_key(#[trigger] out@[j])),
            decreases out@.len() - p,
        {
            proof {
                lemma_lex_total(k@, keys@[p as int]@);
            }
            p = p + 1;
        }
        proof {
            if p < out@.len() {
                assert forall|j: int| p <= j < out@.len() implies lex_le(k@, series_key(#[trigger] out@[j])) by {
                    if j > p {
                        lemma_lex_trans(k@, series_key(out@[p as int]), series_key(out@[j]));
                    }
                }
            }
        }
        out.insert(p, s);
        keys.insert(p, k);
        proof {
            assert(out@ == before_out.insert(p as int, s));
            idx = before_idx.insert(p as int, m);
            assert forall|q: int| 0 <= q < out@.len() implies m <= #[trigger] idx[q] < orig.len() && out@[q] == orig[idx[q]] by {
                if q < p {
                    assert(idx[q] == before_idx[q] && out@[q] == before_out[q]);
                } else if q > p {
                    assert(idx[q] == before_idx[q - 1] && out@[q] == before_out[q - 1]);
                }
            }
            assert forall|a: int, b: int| 0 <= a < b < out@.len() implies #[trigger] idx[a] != #[trigger] idx[b] by {
                if a < p && b < p {
                    assert(idx[a] == before_idx[a] && idx[b] == before_idx[b]);
                } else if a < p && b == p {
                    assert(idx[a] == before_idx[a]);
                } else if a < p {
                    assert(idx[a] == before_idx[a] && idx[b] == before_idx[b - 1]);
                } else if a == p {
                    assert(idx[b] == before_idx[b - 1]);
                } else {
                    assert(idx[a] == before_idx[a - 1] && idx[b] == before_idx[b - 1]);
                }
            }
            assert forall|a: int, b: int|
                0 <= a < b < out@.len() && series_key(#[trigger] out@[a]) == series_key(#[trigger] out@[b]) implies idx[a] < idx[b] by {
                if a < p && b < p {
                    assert(idx[a] == before_idx[a] && idx[b] == before_idx[b]);
                    assert(out@[a] == before_out[a] && out@[b] == before_out[b]);
                } else if a < p && b == p {
                    assert(out@[a] == before_out[a]);
                    assert(!lex_le(k@, series_key(before_out[a])));
                    lemma_lex_total(k@, k@);
                } else if a < p {
                    assert(idx[a] == before_idx[a] && idx[b] == before_idx[b - 1]);
                    assert(out@[a] == before_out[a] && out@[b] == before_out[b - 1]);
                } else if a == p {
                    assert(idx[b] == before_idx[b - 1]);
                } else {
                    assert(idx[a] == before_idx[a - 1] && idx[b] == before_idx[b - 1]);
                    assert(out@[a] == before_out[a - 1] && out@[b] == before_out[b - 1]);
                }
            }
            vstd::seq_lib::to_multiset_insert(before_out, p as int, s);
            vstd::seq_lib::to_multiset_build(src@, s);
            assert(k@ == series_key(s));
            assert forall|a: int, b: int| 0 <= a < b < out@.len() implies lex_le(series_key(#[trigger] out@[a]), series_key(#[trigger] out@[b])) by {
                if a < p && b < p {
                    assert(out@[a] == before_out[a] && out@[b] == before_out[b]);
                } else if a < p && b == p {
                    assert(out@[a] == before_out[a]);
                } else if a < p && b > p {
                    assert(out@[a] == before_out[a] && out@[b] == before_out[b - 1]);
                    lemma_lex_trans(series_key(out@[a]), k@, series_key(out@[b]));
                } else if a == p {
                    assert(out@[b] == before_out[b - 1]);
                } else {
                    assert(out@[a] == before_out[a - 1] && out@[b] == before_out[b - 1]);
                }
            }
            assert forall|j: int| 0 <= j < keys@.len() implies (#[trigger] keys@[j])@ == series_key(out@[j]) by {
                if j < p {
                    assert(out@[j] == before_out[j]);
                } else if j > p {
                    assert(out@[j] == before_out[j - 1]);
                }
            }
            assert(out@.to_multiset() == before_out.to_multiset().insert(s));
            assert(before_src.to_multiset() == src@.to_multiset().insert(s));
            assert(out@.to_multiset().add(src@.to_multiset()) =~= before_out.to_multiset().add(before_src.to_multiset()));
        }
    }
    assert(src@.to_multiset() =~= Multiset::<Series>::empty());
    assert(out@.to_multiset().add(src@.to_multiset()) =~= out@.to_multiset());
    proof {
        vstd::seq_lib::to_multiset_len(out@);
        vstd::seq_lib::to_multiset_len(orig);
        assert(stable_order(orig, out@, idx));
        lemma_stable_order(orig, out@, idx);
    }
    out
}

// ---------------------------------------------------------------------------
// Laws
// ---------------------------------------------------------------------------

/// The rebuilt `next_id` is at least the sequence number of every item's ID.
pub proof fn lemma_rebuilt_next_id_bound(items: Seq<Item>, i: int)
    requires
        0 <= i < items.len(),
        id_seq(items[i].id@) is Some,
    ensures
        id_seq(items[i].id@).unwrap() <= rebuilt_next_id(items),
    decreases items.len(),
{
    if i < items.len() - 1 {
        lemma_rebuilt_next_id_bound(items.drop_last(), i);
        assert(items.drop_last()[i] == items[i]);
    }
}

/// The rebuilt counter of a prefix is at least the sequence number of
/// every shelf mark with that prefix.
pub proof fn lemma_rebuilt_cotes_bound(items: Seq<Item>, i: int)
    requires
        0 <= i < items.len(),
        items[i].cote is Some,
        cote_parts(items[i].cote.unwrap()@) is Some,
    ensures
        ({
            let (p, n) = cote_parts(items[i].cote.unwrap()@).unwrap();
            rebuilt_cotes(items).dom().contains(p) && n <= rebuilt_cotes(items)[p]
        }),
    decreases items.len(),
{
    let m = rebuilt_cotes(items.drop_last());
    if i < items.len() - 1 {
        lemma_rebuilt_cotes_bound(items.drop_last(), i);
        assert(items.drop_last()[i] == items[i]);
        lemma_rebuilt_cotes_monotone(items);
    }
}

/// Adding an item never lowers a rebuilt counter.
pub proof fn lemma_rebuilt_cotes_monotone(items: Seq<Item>)
    requires
        items.len() > 0,
    ensures
        forall|p: Seq<char>| #[trigger] rebuilt_cotes(items.drop_last()).dom().contains(p) ==>
            rebuilt_cotes(items).dom().contains(p) && rebuilt_cotes(items.drop_last())[p] <= rebuilt_cotes(items)[p],
{
}

/// Law (internal IDs are never reused): after the counters are rebuilt
/// from the items of a collection, the ID that `create_item` hands out
/// next differs from the ID of every item.
pub proof fn law_next_id_is_fresh(items: Seq<Item>, prefix: Seq<char>)
    requires
        rebuilt_next_id(items) < u64::MAX,
    ensures
        forall|i: int| 0 <= i < items.len() ==> #[trigger] items[i].id@ != id_text(
            prefix,
            (rebuilt_next_id(items) + 1) as nat,
        ),
{
    let n = (rebuilt_next_id(items) + 1) as u64;
    lemma_id_seq(prefix, n);
    assert forall|i: int| 0 <= i < items.len() implies #[trigger] items[i].id@ != id_text(prefix, n as nat) by {
        if items[i].id@ == id_text(prefix, n as nat) {
            lemma_rebuilt_next_id_bound(items, i);
        }
    }
}

/// Law (shelf marks are never handed out twice): after the counters are
/// rebuilt from the items, the next shelf mark of any prefix differs from
/// the shelf mark of every item.
pub proof fn law_next_cote_is_fresh(items: Seq<Item>, prefix: Seq<char>)
    requires
        (if rebuilt_cotes(items).dom().contains(prefix) { rebuilt_cotes(items)[prefix] as int } else { 0 }) < u64::MAX,
    ensures
        ({
            let next = (if rebuilt_cotes(items).dom().contains(prefix) { rebuilt_cotes(items)[prefix] as int } else { 0 }) + 1;
            forall|i: int| 0 <= i < items.len() && (#[trigger] items[i]).cote is Some ==> items[i].cote.unwrap()@
                != cote_text(prefix, next as nat)
        }),
{
    let last = if rebuilt_cotes(items).dom().contains(prefix) { rebuilt_cotes(items)[prefix] as int } else { 0 };
    let next = (last + 1) as u64;
    lemma_cote_parts(prefix, next);
    assert forall|i: int| 0 <= i < items.len() && (#[trigger] items[i]).cote is Some implies items[i].cote.unwrap()@
        != cote_text(prefix, next as nat) by {
        if items[i].cote.unwrap()@ == cote_text(prefix, next as nat) {
            lemma_rebuilt_cotes_bound(items, i);
        }
    }
}

/// Law (a regenerated shelf mark is up to date): an item that gets the
/// next shelf mark of its current prefix, as `allocate_cote` hands it out
/// after `edit_item` reported the item stale, is no longer stale; its
/// prefix depends on its fields alone, so the new mark stays current until
/// its year or genre change again.
pub proof fn law_allocated_cote_is_current(schema: Schema, item: Item, c: String, n: nat)
    requires
        cote_prefix_spec(schema, item) is Some,
        c@ == cote_text(cote_prefix_spec(schema, item).unwrap(), n),
    ensures
        cote_prefix_spec(schema, Item { cote: Some(c), ..item }) == cote_prefix_spec(schema, item),
        !stale(schema, Item { cote: Some(c), ..item }),
{
    let p = cote_prefix_spec(schema, item).unwrap();
    let moved = Item { cote: Some(c), ..item };
    assert(field_text(moved, schema.cote.unwrap().year_field@) == field_text(item, schema.cote.unwrap().year_field@));
    assert(field_text(moved, schema.cote.unwrap().genre_field@) == field_text(item, schema.cote.unwrap().genre_field@));
    assert(c@.subrange(0, p.len() as int + 1) =~= p + seq!['-']);
}

/// No item of `items` is stale: none counts for any prefix.
proof fn lemma_none_stale(schema: Schema, items: Seq<Item>, p: Seq<char>)
    requires
        forall|i: int| 0 <= i < items.len() ==> !stale(schema, #[trigger] items[i]),
    ensures
        stale_with(schema, items, p) == 0,
    decreases items.len(),
{
    if items.len() > 0 {
        let rest = items.drop_last();
        assert forall|i: int| 0 <= i < rest.len() implies !stale(schema, #[trigger] rest[i]) by {
            assert(rest[i] == items[i]);
        }
        lemma_none_stale(schema, rest, p);
        assert(items == rest.push(items.last()));
        rest.lemma_filter_push(items.last(), stale_of(schema, p));
        assert(!stale(schema, items[items.len() - 1]));
    }
}

/// No item of `items` is stale: regeneration has no change to make.
proof fn lemma_no_changes(schema: Schema, c: Counters, items: Seq<Item>)
    requires
        forall|i: int| 0 <= i < items.len() ==> !stale(schema, #[trigger] items[i]),
    ensures
        regenerated_changes(schema, c, items) == Seq::<(Seq<char>, Option<Seq<char>>, Seq<char>)>::empty(),
    decreases items.len(),
{
    if items.len() > 0 {
        let rest = items.drop_last();
        assert forall|i: int| 0 <= i < rest.len() implies !stale(schema, #[trigger] rest[i]) by {
            assert(rest[i] == items[i]);
        }
        lemma_no_changes(schema, c, rest);
        assert(!stale(schema, items[items.len() - 1]));
    }
}

/// Law (regenerating twice changes nothing the second time): once every
/// item has a current shelf mark, as `regenerate_stale_cotes` leaves them,
/// a regeneration makes no change and leaves the counters as they are
/// (and, by its contract, every item as it is).
pub proof fn law_regenerate_idempotent(schema: Schema, c: Counters, items: Seq<Item>)
    requires
        c.cotes.wf(),
        forall|i: int| 0 <= i < items.len() ==> !stale(schema, #[trigger] items[i]),
    ensures
        regenerated_changes(schema, c, items) == Seq::<(Seq<char>, Option<Seq<char>>, Seq<char>)>::empty(),
        regenerated_counters(schema, c, items) == c.cotes.view(),
{
    lemma_no_changes(schema, c, items);
    assert forall|p: Seq<char>| #[trigger] stale_with(schema, items, p) == 0 by {
        lemma_none_stale(schema, items, p);
    }
    assert(regenerated_counters(schema, c, items) =~= c.cotes.view());
}

/// Law (the location never goes into the shelf mark): an item moved to
/// another place keeps its shelf-mark prefix and whether its mark is stale.
pub proof fn law_cote_ignores_location(schema: Schema, item: Item, emplacement: Option<String>)
    ensures
        cote_prefix_spec(schema, Item { emplacement, ..item }) == cote_prefix_spec(schema, item),
        stale(schema, Item { emplacement, ..item }) == stale(schema, item),
{
    let moved = Item { emplacement, ..item };
    if schema.cote is Some {
        assert(field_text(moved, schema.cote.unwrap().year_field@) == field_text(item, schema.cote.unwrap().year_field@));
        assert(field_text(moved, schema.cote.unwrap().genre_field@) == field_text(item, schema.cote.unwrap().genre_field@));
    }
}

// ---------------------------------------------------------------------------
// Collections and item files
// ---------------------------------------------------------------------------

/// A valid collection slug: not empty, made of lowercase ASCII letters,
/// digits and hyphens.
pub open spec fn valid_slug(s: Seq<char>) -> bool {
    &&& s.len() > 0
    &&& forall|k: int| 0 <= k < s.len() ==> (is_lower(#[trigger] s[k]) || is_digit(s[k]) || s[k] == '-')
}

/// The item ID named by a file of a collection directory: the stem of a
/// `.yaml` file whose name does not start with `_` (those are the
/// collection's own files).
pub open spec fn item_stem(name: Seq<char>) -> Option<Seq<char>> {
    let ext = ".yaml"@;
    if name.len() >= ext.len() && name.subrange(name.len() - ext.len(), name.len() as int) == ext {
        let stem = name.subrange(0, name.len() - ext.len());
        if stem.len() > 0 && stem[0] == '_' {
            None
        } else {
            Some(stem)
        }
    } else {
        None
    }
}

/// The item IDs named by a list of file names.
pub open spec fn stems(names: Seq<Seq<char>>) -> Set<Seq<char>> {
    Set::new(|id: Seq<char>| exists|k: int| 0 <= k < names.len() && item_stem(#[trigger] names[k]) == Some(id))
}

impl Library {
    /// The slugs of the library's collections, given the names of the
    /// directories under `collections/` that hold a `_schema.yaml`: sorted
    /// by name (a directory lists each name once).
    pub fn collections(&self, with_schema: Vec<String>) -> (r: Vec<String>)
        ensures
            views(r@).to_set() == views(with_schema@).to_set(),
            strictly_sorted(views(r@)),
    {
        sort_dedup(with_schema)
    }

    /// The IDs of the items of a collection, given the names of the files of
    /// its directory: the `.yaml` files not starting with `_`, without their
    /// extension, sorted.
    pub fn list_item_ids(&self, file_names: Vec<String>) -> (r: Vec<String>)
        ensures
            views(r@).to_set() == stems(views(file_names@)),
            strictly_sorted(views(r@)),
    {
        let ext: Vec<char> = chars_of(".yaml");
        proof {
            reveal_strlit(".yaml");
        }
        let mut ids: Vec<String> = Vec::new();
        let mut i: usize = 0;
        while i < file_names.len()
            invariant
                i <= file_names@.len(),
                ext@ == ".yaml"@,
                forall|j: int| 0 <= j < ids@.len() ==> exists|k: int|
                    0 <= k < i && item_stem(#[trigger] file_names@[k]@) == Some((#[trigger] ids@[j])@),
                forall|k: int| 0 <= k < i && (#[trigger] item_stem(file_names@[k]@)) is Some ==> exists|j: int|
                    0 <= j < ids@.len() && (#[trigger] ids@[j])@ == item_stem(file_names@[k]@).unwrap(),
            decreases file_names@.len() - i,
        {
            let name: Vec<char> = chars_of(file_names[i].as_str());
            let ghost before = ids@;
            if name.len() >= ext.len() {
                let cut = name.len() - ext.len();
                let tail = slice_string(&name, cut, name.len());
                let tail_chars = chars_of(tail.as_str());
                if seq_eq(&tail_chars, &ext) {
                    let stem = slice_string(&name, 0, cut);
                    if cut > 0 && name[0] == '_' {
                        assert(item_stem(file_names@[i as int]@).is_none());
                    } else {
                        assert(item_stem(file_names@[i as int]@) == Some(stem@));
                        ids.push(stem);
                        assert(ids@[ids@.len() - 1]@ == stem@);
                        assert forall|j: int| 0 <= j < ids@.len() implies exists|k: int|
                            0 <= k < i + 1 && item_stem(#[trigger] file_names@[k]@) == Some((#[trigger] ids@[j])@) by {
                            if j < before.len() {
                                assert(ids@[j] == before[j]);
                            } else {
                                assert(item_stem(file_names@[i as int]@) == Some(ids@[j]@));
                            }
                        }
                        assert forall|k: int| 0 <= k < i + 1 && (#[trigger] item_stem(file_names@[k]@)) is Some implies exists|j: int|
                            0 <= j < ids@.len() && (#[trigger] ids@[j])@ == item_stem(file_names@[k]@).unwrap() by {
                            if k < i {
                                let j = choose|j: int| 0 <= j < before.len() && (#[trigger] before[j])@ == item_stem(file_names@[k]@).unwrap();
                                assert(ids@[j] == before[j]);
                            } else {
                                assert(ids@[ids@.len() - 1]@ == item_stem(file_names@[k]@).unwrap());
                            }
                        }
                    }
                } else {
                    assert(tail@ == file_names@[i as int]@.subrange(cut as int, name@.len() as int));
                    assert(item_stem(file_names@[i as int]@).is_none());
                }
            } else {
                assert(item_stem(file_names@[i as int]@).is_none());
            }
            i = i + 1;
        }
        assert forall|id: Seq<char>| views(ids@).to_set().contains(id) <==> stems(views(file_names@)).contains(id) by {
            if views(ids@).to_set().contains(id) {
                let j = views(ids@).index_of(id);
                assert(ids@[j]@ == id);
                let k = choose|k: int| 0 <= k < file_names@.len() && item_stem(#[trigger] file_names@[k]@) == Some(ids@[j]@);
                assert(views(file_names@)[k] == file_names@[k]@);
            }
            if stems(views(file_names@)).contains(id) {
                let k = choose|k: int| 0 <= k < views(file_names@).len() && item_stem(#[trigger] views(file_names@)[k]) == Some(id);
                assert(views(file_names@)[k] == file_names@[k]@);
                assert(item_stem(file_names@[k]@) is Some);
                let j = choose|j: int| 0 <= j < ids@.len() && (#[trigger] ids@[j])@ == item_stem(file_names@[k]@).unwrap();
                assert(views(ids@)[j] == id);
            }
        }
        assert(views(ids@).to_set() =~= stems(views(file_names@)));
        sort_dedup(ids)
    }

    /// Checks a new collection before its directories and schema are
    /// written: the slug is made of lowercase letters, digits and hyphens,
    /// and no collection of that slug exists yet.
    pub fn create_collection(&self, slug: &str, exists: bool) -> (r: Result<(), String>)
        ensures
            !valid_slug(slug@) ==> (r matches Err(e)
                && e@ == "slug invalide (minuscules, chiffres et tirets uniquement)"@),
            valid_slug(slug@) && exists ==> (r matches Err(e)
                && e@ == "la collection "@ + slug@ + " existe déjà"@),
            valid_slug(slug@) && !exists ==> r is Ok,
    {
        let cs = chars_of(slug);
        let mut ok = cs.len() > 0;
        let mut i: usize = 0;
        while i < cs.len()
            invariant
                i <= cs@.len(),
                cs@ == slug@,
                ok == (cs@.len() > 0 && forall|k: int| 0 <= k < i ==> (is_lower(#[trigger] cs@[k]) || is_digit(cs@[k]) || cs@[k] == '-')),
            decreases cs@.len() - i,
        {
            let c = cs[i];
            if !(is_ascii_lowercase(c) || is_ascii_digit(c) || c == '-') {
                ok = false;
            }
            i = i + 1;
        }
        if !ok {
            return Err(owned("slug invalide (minuscules, chiffres et tirets uniquement)"));
        }
        if exists {
            let mut e = owned("la collection ");
            e.append(slug);
            e.append(" existe déjà");
            return Err(e);
        }
        Ok(())
    }

    /// Checks a collection before its removal: it must have a schema; the
    /// number of its items is what the removal reports.
    pub fn delete_collection(&self, slug: &str, has_schema: bool, item_count: usize) -> (r: Result<usize, String>)
        ensures
            has_schema ==> r == Ok::<usize, String>(item_count),
            !has_schema ==> (r matches Err(e) && e@ == "la collection « "@ + slug@ + " » n'existe pas"@),
    {
        if !has_schema {
            let mut e = owned("la collection « ");
            e.append(slug);
            e.append(" » n'existe pas");
            return Err(e);
        }
        Ok(item_count)
    }

    /// Where a removed collection goes, outside the library: the folder
    /// `<library>-corbeille/<slug>`, with `-n` behind it for the `n`-th
    /// other choice when that one is taken. Nothing is destroyed.
    pub fn removed_collection_dir(&self, slug: &str, n: u64) -> (r: String)
        ensures
            r@ == self.root@ + "-corbeille/"@ + slug@ + if n == 0 {
                ""@
            } else {
                "-"@ + crate::text::decimal(n as nat)
            },
    {
        let mut out = self.root.clone();
        out.append("-corbeille/");
        out.append(slug);
        if n > 0 {
            out.append("-");
            out.append(crate::text::format_u64(n).as_str());
        } else {
            proof {
                reveal_strlit("");
            }
            assert(out@ + ""@ =~= out@);
        }
        out
    }
}

} // verus!
