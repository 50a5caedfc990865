//! Replaying an import: a table imported a second time, with duplicates
//! skipped, adds nothing.
use vstd::prelude::*;
use crate::hydrate::fields_view;
use crate::import::{
    names_key, name_of, adds_option, added_upto, canonical_option, dedup_ean, dedup_triple, fval, ftext, given_value, giver, gives,
    lemma_first_pointwise, lemma_giver_step, lemma_schema_grows_trans, option_added, options_added, read_at,
    row_fields, schema_grows, series_field_spec, serie_key_of, eans_of, genres_upto, title_missing, ColumnMapping,
    attached, one_shot, slugify_spec, ImportOptions, ImportState, ImportResult, row_step, row_step_via, step_at,
    lemma_schema_grows_refl, lemma_dedup_grows, known_dup, triples_of, start_state, steps_through, import_steps,
    mapped_columns,
};
use crate::model::{Counters, Schema};
use crate::model::Series;
use crate::store::same_id;
use crate::model::{field_spec, is_required_text, is_text, key_is, title_field_spec, FieldDef, FieldType, Item, SelectOption};
use crate::text::{first, is_first, lemma_first_exists, lemma_first_none, lemma_first_some};
use crate::import::normalize_spec;
use crate::value::ValueV;
use crate::value::{as_i64_spec, get_spec, lemma_vviews_len, member, mviews, str_of, vview, vviews, StrMap, Value};

verus! {

/// The members of a list, one by one.
proof fn lemma_mviews_index(s: Seq<(String, Value)>)
    ensures
        mviews(s).len() == s.len(),
        forall|j: int| 0 <= j < s.len() ==> #[trigger] mviews(s)[j] == (s[j].0@, vview(s[j].1)),
    decreases s.len(),
{
    if s.len() > 0 {
        let p = s.subrange(0, s.len() - 1);
        lemma_mviews_index(p);
        assert forall|j: int| 0 <= j < s.len() implies #[trigger] mviews(s)[j] == (s[j].0@, vview(s[j].1)) by {
            if j < s.len() - 1 {
                assert(p[j] == s[j]);
            }
        }
    }
}

/// Member lists that look alike have members that look alike.
proof fn lemma_member_view(a: Seq<(String, Value)>, b: Seq<(String, Value)>, k: Seq<char>)
    requires
        a.len() == b.len(),
        forall|j: int| 0 <= j < a.len() ==> a[j].0@ == b[j].0@ && vview(a[j].1) == vview(b[j].1),
    ensures
        member(a, k) is Some <==> member(b, k) is Some,
        member(a, k) is Some ==> vview(member(a, k).unwrap()) == vview(member(b, k).unwrap()),
    decreases a.len(),
{
    if a.len() > 0 && a[0].0@ != k {
        let a1 = a.drop_first();
        let b1 = b.drop_first();
        assert forall|j: int| 0 <= j < a1.len() implies a1[j].0@ == b1[j].0@ && vview(a1[j].1) == vview(b1[j].1) by {
            assert(a1[j] == a[j + 1] && b1[j] == b[j + 1]);
        }
        lemma_member_view(a1, b1, k);
    }
}

/// Values that look alike read alike as text, as an integer and member by
/// member.
proof fn lemma_value_view(x: Value, y: Value)
    requires
        vview(x) == vview(y),
    ensures
        str_of(x) == str_of(y),
        as_i64_spec(x) == as_i64_spec(y),
        forall|k: Seq<char>| #[trigger] get_spec(x, k) is Some <==> get_spec(y, k) is Some,
        forall|k: Seq<char>| #[trigger] get_spec(x, k) is Some ==> vview(get_spec(x, k).unwrap()) == vview(
            get_spec(y, k).unwrap(),
        ),
{
    match (x, y) {
        (Value::Object(a), Value::Object(b)) => {
            lemma_mviews_index(a@);
            lemma_mviews_index(b@);
            assert(mviews(a@) == mviews(b@));
            assert forall|j: int| 0 <= j < a@.len() implies a@[j].0@ == b@[j].0@ && vview(a@[j].1) == vview(b@[j].1) by {
                assert(mviews(a@)[j] == mviews(b@)[j]);
            }
            assert forall|k: Seq<char>| #[trigger] get_spec(x, k) is Some <==> get_spec(y, k) is Some by {
                lemma_member_view(a@, b@, k);
            }
            assert forall|k: Seq<char>| #[trigger] get_spec(x, k) is Some implies vview(get_spec(x, k).unwrap()) == vview(
                get_spec(y, k).unwrap(),
            ) by {
                lemma_member_view(a@, b@, k);
            }
        },
        _ => {},
    }
}

/// Fields that look alike have a field `k` that looks alike.
proof fn lemma_fval_view(a: StrMap<Value>, b: StrMap<Value>, k: Seq<char>)
    requires
        fields_view(a) == fields_view(b),
    ensures
        fval(a, k) is Some <==> fval(b, k) is Some,
        fval(a, k) is Some ==> vview(fval(a, k).unwrap()) == vview(fval(b, k).unwrap()),
{
    assert(fields_view(a).dom().contains(k) == a.view().dom().contains(k));
    assert(fields_view(b).dom().contains(k) == b.view().dom().contains(k));
    if a.view().dom().contains(k) {
        assert(fields_view(a)[k] == vview(a.view()[k]));
        assert(fields_view(b)[k] == vview(b.view()[k]));
    }
}

/// Fields that look alike have the same duplicate keys, title and texts.
pub proof fn lemma_fields_view_keys(fs: Seq<FieldDef>, a: StrMap<Value>, b: StrMap<Value>)
    requires
        fields_view(a) == fields_view(b),
    ensures
        dedup_triple(fs, a) == dedup_triple(fs, b),
        dedup_ean(a) == dedup_ean(b),
        forall|k: Seq<char>| #[trigger] title_missing(a, k) == title_missing(b, k),
        forall|k: Seq<char>| #[trigger] ftext(a, k) == ftext(b, k),
{
    assert forall|k: Seq<char>| #[trigger] title_missing(a, k) == title_missing(b, k) && ftext(a, k) == ftext(b, k) by {
        lemma_fval_view(a, b, k);
        if fval(a, k) is Some {
            lemma_value_view(fval(a, k).unwrap(), fval(b, k).unwrap());
        }
    }
    assert forall|k: Seq<char>| #[trigger] ftext(a, k) == ftext(b, k) by {
        assert(title_missing(a, k) == title_missing(b, k) && ftext(a, k) == ftext(b, k));
    }
    lemma_fval_view(a, b, "ean"@);
    lemma_fval_view(a, b, "isbn"@);
    if fval(a, "ean"@) is Some {
        lemma_value_view(fval(a, "ean"@).unwrap(), fval(b, "ean"@).unwrap());
    }
    if fval(a, "isbn"@) is Some {
        lemma_value_view(fval(a, "isbn"@).unwrap(), fval(b, "isbn"@).unwrap());
    }
    match crate::model::title_field_spec(fs) {
        Some(f) => {
            lemma_fval_view(a, b, f.key@);
            if fval(a, f.key@) is Some {
                lemma_value_view(fval(a, f.key@).unwrap(), fval(b, f.key@).unwrap());
            }
        },
        None => {},
    }
    assert forall|k: Seq<char>| #[trigger] crate::import::field_key(a, k) == crate::import::field_key(b, k) by {
        lemma_fval_view(a, b, k);
        if fval(a, k) is Some {
            lemma_names_key_view(fval(a, k).unwrap(), fval(b, k).unwrap());
        }
    }
}

/// Lists that look alike give the same names.
proof fn lemma_names_view(a: Seq<Value>, b: Seq<Value>)
    requires
        vviews(a) == vviews(b),
    ensures
        a.filter_map(|x: Value| name_of(x)) == b.filter_map(|x: Value| name_of(x)),
    decreases a.len(),
{
    lemma_vviews_len(a);
    lemma_vviews_len(b);
    if a.len() > 0 {
        let pa = a.subrange(0, a.len() - 1);
        let pb = b.subrange(0, b.len() - 1);
        lemma_vviews_len(pa);
        lemma_vviews_len(pb);
        assert(vviews(a) == vviews(pa).push(vview(a.last())));
        assert(vviews(b) == vviews(pb).push(vview(b.last())));
        assert(vviews(pa) == vviews(a).drop_last());
        assert(vviews(pb) == vviews(b).drop_last());
        assert(vview(a.last()) == vviews(a).last());
        assert(vview(b.last()) == vviews(b).last());
        lemma_names_view(pa, pb);
        assert(a.drop_last() == pa);
        assert(b.drop_last() == pb);
        lemma_value_view(a.last(), b.last());
        assert(name_of(a.last()) == name_of(b.last()));
    }
}

/// Values that look alike have the same normalised names.
proof fn lemma_names_key_view(x: Value, y: Value)
    requires
        vview(x) == vview(y),
    ensures
        names_key(x) == names_key(y),
{
    lemma_value_view(x, y);
    match (x, y) {
        (Value::Array(a), Value::Array(b)) => {
            lemma_names_view(a@, b@);
        },
        _ => {},
    }
}

/// Growing a schema keeps the position of every key.
proof fn lemma_key_pos(a: Seq<FieldDef>, b: Seq<FieldDef>, k: Seq<char>)
    requires
        schema_grows(a, b),
    ensures
        first(a, key_is(k)) == first(b, key_is(k)),
{
    assert forall|j: int| 0 <= j < a.len() implies (key_is(k))(a[j]) == (key_is(k))(b[j]) by {
        assert(b[j].key == a[j].key);
    }
    lemma_first_pointwise(a, key_is(k), b, key_is(k));
}

/// Growing a schema changes no giver.
proof fn lemma_givers_grow(
    a: Seq<FieldDef>,
    b: Seq<FieldDef>,
    rec: Seq<Seq<char>>,
    cs: Seq<usize>,
    ms: Seq<ColumnMapping>,
    numf: spec_fn(Seq<char>) -> Option<ValueV>,
    k: Seq<char>,
)
    requires
        schema_grows(a, b),
    ensures
        forall|i: int| #[trigger] gives(a, rec, cs, ms, numf, i, k) == gives(b, rec, cs, ms, numf, i, k),
        forall|n: int| #[trigger] giver(a, rec, cs, ms, numf, n, k) == giver(b, rec, cs, ms, numf, n, k),
        field_spec(a, k) is Some <==> field_spec(b, k) is Some,
        field_spec(a, k) is Some ==> field_spec(a, k).unwrap().field_type == field_spec(b, k).unwrap().field_type,
{
    lemma_key_pos(a, b, k);
    if first(a, key_is(k)) is Some {
        let q = first(a, key_is(k)).unwrap();
        assert(is_first(a, key_is(k), q));
        assert(b[q].field_type == a[q].field_type);
    }
    assert forall|n: int| #[trigger] giver(a, rec, cs, ms, numf, n, k) == giver(b, rec, cs, ms, numf, n, k) by {
        let s = Seq::new(n as nat, |i: int| i);
        lemma_first_pointwise(s, |i: int| gives(a, rec, cs, ms, numf, i, k), s, |i: int| gives(b, rec, cs, ms, numf, i, k));
    }
}

/// The giver of `k` among `n` mappings is the first that gives it.
proof fn lemma_giver_first(
    fs: Seq<FieldDef>,
    rec: Seq<Seq<char>>,
    cs: Seq<usize>,
    ms: Seq<ColumnMapping>,
    numf: spec_fn(Seq<char>) -> Option<ValueV>,
    n: int,
    k: Seq<char>,
    i: int,
)
    requires
        0 <= n,
        giver(fs, rec, cs, ms, numf, n, k) == Some(i),
    ensures
        0 <= i < n,
        gives(fs, rec, cs, ms, numf, i, k),
        giver(fs, rec, cs, ms, numf, i, k) is None,
{
    let a = Seq::new(n as nat, |j: int| j);
    let p = |j: int| gives(fs, rec, cs, ms, numf, j, k);
    assert(is_first(a, p, i));
    let b = Seq::new(i as nat, |j: int| j);
    assert forall|j: int| 0 <= j < b.len() implies !p(#[trigger] b[j]) by {
        assert(a[j] == j && b[j] == j);
        assert(!p(a[j]));
    }
    lemma_first_none(b, p);
}

/// A mapping that gives `k` before any other is its giver.
proof fn lemma_giver_of(
    fs: Seq<FieldDef>,
    rec: Seq<Seq<char>>,
    cs: Seq<usize>,
    ms: Seq<ColumnMapping>,
    numf: spec_fn(Seq<char>) -> Option<ValueV>,
    n: int,
    k: Seq<char>,
    i: int,
)
    requires
        0 <= i < n,
        gives(fs, rec, cs, ms, numf, i, k),
        giver(fs, rec, cs, ms, numf, i, k) is None,
    ensures
        giver(fs, rec, cs, ms, numf, n, k) == Some(i),
{
    lemma_giver_step(fs, rec, cs, ms, numf, i, k);
    let a = Seq::new(n as nat, |j: int| j);
    let p = |j: int| gives(fs, rec, cs, ms, numf, j, k);
    assert(is_first(a, p, i)) by {
        assert forall|j: int| 0 <= j < i implies !p(#[trigger] a[j]) by {
            assert(a[j] == j);
        }
    }
    lemma_first_some(a, p, i);
}

/// Once the options of a row are added, its select values find their
/// option in any later schema, and read the same there.
proof fn lemma_select_value(
    a: Seq<FieldDef>,
    a1: Seq<FieldDef>,
    b: Seq<FieldDef>,
    rec: Seq<Seq<char>>,
    cs: Seq<usize>,
    ms: Seq<ColumnMapping>,
    numf: spec_fn(Seq<char>) -> Option<ValueV>,
    k: Seq<char>,
    i: int,
)
    requires
        schema_grows(a, a1),
        schema_grows(a1, b),
        options_added(a, a1, rec, cs, ms, numf, ms.len() as int),
        giver(a, rec, cs, ms, numf, ms.len() as int, k) == Some(i),
        field_spec(a, k).unwrap().field_type == FieldType::Select,
    ensures
        canonical_option(field_spec(b, k).unwrap().options@, read_at(rec, cs, ms, i).unwrap()) is Some,
        given_value(b, rec, cs, ms, numf, i, k) == given_value(a, rec, cs, ms, numf, i, k),
{
    let n = ms.len() as int;
    lemma_giver_first(a, rec, cs, ms, numf, n, k, i);
    lemma_key_pos(a, a1, k);
    lemma_key_pos(a1, b, k);
    let q = first(a, key_is(k)).unwrap();
    assert(is_first(a, key_is(k), q));
    let oa = a[q].options@;
    let oa1 = a1[q].options@;
    let ob = b[q].options@;
    assert(oa1.take(oa.len() as int) == oa);
    assert(ob.take(oa1.len() as int) == oa1);
    assert forall|j: int| 0 <= j < oa.len() implies #[trigger] ob[j] == oa[j] by {
        assert(ob.take(oa1.len() as int)[j] == ob[j]);
        assert(oa1.take(oa.len() as int)[j] == oa1[j]);
    }
    let v = read_at(rec, cs, ms, i).unwrap();
    let pc = |o: SelectOption| normalize_spec(o.value@) == normalize_spec(v);
    match canonical_option(oa, v) {
        Some(o) => {
            assert(is_first(oa, pc, o));
            assert(is_first(ob, pc, o)) by {
                assert forall|j: int| 0 <= j < o implies !pc(#[trigger] ob[j]) by {
                    assert(ob[j] == oa[j]);
                }
            }
            lemma_first_some(ob, pc, o);
        },
        None => {
            assert forall|j: int| 0 <= j < oa.len() implies !pc(#[trigger] oa[j]) by {
                if pc(oa[j]) {
                    lemma_first_exists(oa, pc, j);
                }
            }
            assert(adds_option(a, rec, cs, ms, numf, i));
            assert(added_upto(a, rec, cs, ms, numf, n, q) == Some(v));
            assert(option_added(a[q], a1[q], v));
            let m = oa.len() as int;
            assert(oa1[m] == oa1.last());
            assert(ob.take(oa1.len() as int)[m] == ob[m]);
            assert(is_first(ob, pc, m)) by {
                assert forall|j: int| 0 <= j < m implies !pc(#[trigger] ob[j]) by {
                    assert(ob[j] == oa[j]);
                }
            }
            lemma_first_some(ob, pc, m);
        },
    }
}

/// Once a row has added its options, reading it again in a later schema
/// gives the same fields and adds no option.
proof fn lemma_reread_row(
    a: Seq<FieldDef>,
    a1: Seq<FieldDef>,
    b: Seq<FieldDef>,
    rec: Seq<Seq<char>>,
    cs: Seq<usize>,
    ms: Seq<ColumnMapping>,
    numf: spec_fn(Seq<char>) -> Option<ValueV>,
)
    requires
        schema_grows(a, a1),
        schema_grows(a1, b),
        options_added(a, a1, rec, cs, ms, numf, ms.len() as int),
    ensures
        row_fields(b, rec, cs, ms, numf) == row_fields(a, rec, cs, ms, numf),
        forall|i: int| 0 <= i < ms.len() ==> !#[trigger] adds_option(b, rec, cs, ms, numf, i),
{
    let n = ms.len() as int;
    lemma_schema_grows_trans(a, a1, b);
    assert forall|k: Seq<char>|
        giver(b, rec, cs, ms, numf, n, k) == giver(a, rec, cs, ms, numf, n, k) && (giver(a, rec, cs, ms, numf, n, k)
            matches Some(i) ==> given_value(b, rec, cs, ms, numf, i, k) == given_value(a, rec, cs, ms, numf, i, k)) by {
        lemma_givers_grow(a, b, rec, cs, ms, numf, k);
        if giver(a, rec, cs, ms, numf, n, k) is Some {
            let i = giver(a, rec, cs, ms, numf, n, k).unwrap();
            lemma_giver_first(a, rec, cs, ms, numf, n, k, i);
            if field_spec(a, k).unwrap().field_type == FieldType::Select {
                lemma_select_value(a, a1, b, rec, cs, ms, numf, k, i);
            }
        }
    }
    assert(row_fields(b, rec, cs, ms, numf) =~= row_fields(a, rec, cs, ms, numf));
    assert forall|i: int| 0 <= i < ms.len() implies !#[trigger] adds_option(b, rec, cs, ms, numf, i) by {
        if adds_option(b, rec, cs, ms, numf, i) {
            let t = ms[i].target@;
            lemma_givers_grow(a, b, rec, cs, ms, numf, t);
            lemma_giver_of(a, rec, cs, ms, numf, n, t, i);
            lemma_select_value(a, a1, b, rec, cs, ms, numf, t, i);
        }
    }
}

/// Mappings that add no option add no select value.
proof fn lemma_no_genres(
    b: Seq<FieldDef>,
    rec: Seq<Seq<char>>,
    cs: Seq<usize>,
    ms: Seq<ColumnMapping>,
    numf: spec_fn(Seq<char>) -> Option<ValueV>,
    n: nat,
)
    requires
        n <= ms.len(),
        forall|i: int| 0 <= i < ms.len() ==> !#[trigger] adds_option(b, rec, cs, ms, numf, i),
    ensures
        genres_upto(b, rec, cs, ms, numf, n) == Seq::<Seq<char>>::empty(),
    decreases n,
{
    if n > 0 {
        lemma_no_genres(b, rec, cs, ms, numf, (n - 1) as nat);
        assert(!adds_option(b, rec, cs, ms, numf, n - 1));
    }
}

/// Mappings that add no option leave the fields of the schema as they are.
proof fn lemma_no_options(
    b: Seq<FieldDef>,
    x: Seq<FieldDef>,
    rec: Seq<Seq<char>>,
    cs: Seq<usize>,
    ms: Seq<ColumnMapping>,
    numf: spec_fn(Seq<char>) -> Option<ValueV>,
)
    requires
        options_added(b, x, rec, cs, ms, numf, ms.len() as int),
        forall|i: int| 0 <= i < ms.len() ==> !#[trigger] adds_option(b, rec, cs, ms, numf, i),
    ensures
        x == b,
{
    let n = ms.len() as int;
    assert forall|q: int| 0 <= q < b.len() implies x[q] == b[q] by {
        let k = b[q].key@;
        if giver(b, rec, cs, ms, numf, n, k) is Some {
            lemma_giver_first(b, rec, cs, ms, numf, n, k, giver(b, rec, cs, ms, numf, n, k).unwrap());
        }
        assert(added_upto(b, rec, cs, ms, numf, n, q) is None);
    }
    assert(x =~= b);
}

/// Growing a schema keeps its title key and its series key.
proof fn lemma_keys_grow(a: Seq<FieldDef>, b: Seq<FieldDef>)
    requires
        schema_grows(a, b),
    ensures
        title_field_spec(a) is Some <==> title_field_spec(b) is Some,
        title_field_spec(a) is Some ==> title_field_spec(a).unwrap().key == title_field_spec(b).unwrap().key,
        serie_key_of(a) == serie_key_of(b),
{
    let r1 = |f: FieldDef| is_required_text(f);
    let t1 = |f: FieldDef| is_text(f);
    let s1 = |f: FieldDef| f.field_type == FieldType::SeriesRef;
    assert forall|j: int| 0 <= j < a.len() implies r1(a[j]) == r1(b[j]) && t1(a[j]) == t1(b[j]) && s1(a[j]) == s1(b[j]) by {
        assert(b[j].field_type == a[j].field_type && b[j].required == a[j].required);
    }
    lemma_first_pointwise(a, r1, b, r1);
    lemma_first_pointwise(a, t1, b, t1);
    lemma_first_pointwise(a, s1, b, s1);
    if first(a, r1) is Some {
        assert(is_first(a, r1, first(a, r1).unwrap()));
    }
    if first(a, t1) is Some {
        assert(is_first(a, t1, first(a, t1).unwrap()));
    }
    if first(a, s1) is Some {
        assert(is_first(a, s1, first(a, s1).unwrap()));
    }
}

/// An item with an EAN puts it among the EANs of the items.
proof fn lemma_eans_contains(items: Seq<Item>, it: Item, e: Seq<char>)
    requires
        items.contains(it),
        dedup_ean(it.fields) == Some(e),
    ensures
        eans_of(items).contains(e),
    decreases items.len(),
{
    let rest = items.drop_last();
    if items.last() == it {
        assert(eans_of(items) == eans_of(rest) + seq![e]);
        assert(eans_of(items)[eans_of(rest).len() as int] == e);
    } else {
        let w = choose|w: int| 0 <= w < items.len() && items[w] == it;
        assert(rest[w] == it);
        lemma_eans_contains(rest, it, e);
        let u = choose|u: int| 0 <= u < eans_of(rest).len() && eans_of(rest)[u] == e;
        assert(eans_of(items)[u] == e);
    }
}

/// Linking fields that look alike to their series gives fields that look
/// alike; the registry that already has the series is left as it is.
proof fn lemma_attached_view(
    f1a: StrMap<Value>,
    f2a: StrMap<Value>,
    f1b: StrMap<Value>,
    f2b: StrMap<Value>,
    name: Option<Seq<char>>,
    tome: Option<i64>,
    titre_key: Seq<char>,
    sk: Option<Seq<char>>,
    sa1: Seq<Series>,
    sa2: Seq<Series>,
    sb1: Seq<Series>,
    sb2: Seq<Series>,
    options: ImportOptions,
)
    requires
        fields_view(f1a) == fields_view(f1b),
        attached(f1a, f2a, name, tome, titre_key, sk, sa1, sa2, options),
        attached(f1b, f2b, name, tome, titre_key, sk, sb1, sb2, options),
        forall|x: Series| sa2.contains(x) ==> sb1.contains(x),
    ensures
        fields_view(f2a) == fields_view(f2b),
        sb2 == sb1,
{
    lemma_fields_view_keys(Seq::empty(), f1a, f1b);
    match name {
        Some(nm) => {
            let id = slugify_spec(nm);
            assert(one_shot(options, f1a, titre_key, nm, tome) == one_shot(options, f1b, titre_key, nm, tome)) by {
                assert(ftext(f1a, titre_key) == ftext(f1b, titre_key));
            }
            if !(one_shot(options, f1a, titre_key, nm, tome) || sk is None || id.len() == 0) {
                let key = sk.unwrap();
                assert forall|k: Seq<char>| #[trigger] f1a.view().dom().contains(k) <==> f1b.view().dom().contains(k) by {
                    assert(fields_view(f1a).dom().contains(k) == f1a.view().dom().contains(k));
                    assert(fields_view(f1b).dom().contains(k) == f1b.view().dom().contains(k));
                }
                assert forall|k: Seq<char>| #[trigger] fields_view(f2a).dom().contains(k) implies fields_view(f2b).dom().contains(k)
                    && fields_view(f2a)[k] == fields_view(f2b)[k] by {
                    assert(f2a.view().dom().contains(k));
                    assert(fields_view(f2a)[k] == vview(f2a.view()[k]));
                    assert(f2b.view().dom().contains(k));
                    assert(fields_view(f2b)[k] == vview(f2b.view()[k]));
                    if k != key {
                        assert(f1a.view().dom().contains(k));
                        assert(f1b.view().dom().contains(k));
                        assert(f2a.view()[k] == f1a.view()[k]);
                        assert(f2b.view()[k] == f1b.view()[k]);
                        assert(fields_view(f1a)[k] == vview(f1a.view()[k]));
                        assert(fields_view(f1b)[k] == vview(f1b.view()[k]));
                        assert(fields_view(f1a)[k] == fields_view(f1b)[k]);
                    }
                }
                assert forall|k: Seq<char>| #[trigger] fields_view(f2b).dom().contains(k) implies fields_view(f2a).dom().contains(k) by {
                    if k != key {
                        assert(f1b.view().dom().contains(k));
                    }
                }
                assert(fields_view(f2a) =~= fields_view(f2b));
                let x = if first(sa1, same_id(id)) is Some {
                    let w = first(sa1, same_id(id)).unwrap();
                    assert(is_first(sa1, same_id(id), w));
                    sa2[w]
                } else {
                    sa2.last()
                };
                assert(sa2.contains(x));
                assert(sb1.contains(x));
                let w = choose|w: int| 0 <= w < sb1.len() && sb1[w] == x;
                lemma_first_exists(sb1, same_id(id), w);
            }
        },
        None => {},
    }
}

/// Along an import, the schema only grows, and items and series once
/// there stay there.
proof fn lemma_mono(
    numf: spec_fn(Seq<char>) -> Option<ValueV>,
    sts: Seq<ImportState>,
    rs: Seq<Result<Seq<Seq<char>>, Seq<char>>>,
    cs: Seq<usize>,
    ms: Seq<ColumnMapping>,
    options: ImportOptions,
    today: Seq<char>,
    titre_key: Seq<char>,
    sk: Option<Seq<char>>,
    i: int,
)
    requires
        sts.len() == rs.len() + 1,
        0 <= i <= rs.len(),
        forall|j: int| 0 <= j < rs.len() ==> #[trigger] step_at(numf, sts, rs, j, cs, ms, options, today, titre_key, sk),
    ensures
        schema_grows(sts[i].schema.fields@, sts.last().schema.fields@),
        forall|x: Item| sts[i].items.contains(x) ==> sts.last().items.contains(x),
        forall|x: Series| sts[i].series.contains(x) ==> sts.last().series.contains(x),
    decreases rs.len() - i,
{
    if i == rs.len() {
        lemma_schema_grows_refl(sts[i].schema.fields@);
    } else {
        lemma_mono(numf, sts, rs, cs, ms, options, today, titre_key, sk, i + 1);
        assert(step_at(numf, sts, rs, i, cs, ms, options, today, titre_key, sk));
        let b = sts[i];
        let a = sts[i + 1];
        match rs[i] {
            Err(e) => {},
            Ok(rec) => {
                let prefix = "ligne "@ + crate::text::decimal((i + 2) as nat) + " : "@;
                let (f1, sc1, f2, se1, it) = choose|f1: StrMap<Value>, sc1: Schema, f2: StrMap<Value>, se1: Seq<Series>, it: Item|
                    #[trigger] row_step_via(numf, b, a, rec, prefix, cs, ms, options, today, titre_key, sk, f1, sc1, f2, se1, it);
                lemma_schema_grows_trans(b.schema.fields@, a.schema.fields@, sts.last().schema.fields@);
                assert forall|x: Item| b.items.contains(x) implies a.items.contains(x) by {
                    let w = choose|w: int| 0 <= w < b.items.len() && b.items[w] == x;
                    assert(a.items[w] == x);
                }
                assert forall|x: Series| b.series.contains(x) implies a.series.contains(x) by {
                    let w = choose|w: int| 0 <= w < b.series.len() && b.series[w] == x;
                    assert(se1.take(b.series.len() as int)[w] == x);
                    assert(a.series[w] == x);
                }
            },
        }
    }
}

/// Two schemas that agree in everything.
pub open spec fn same_schema(a: Schema, b: Schema) -> bool {
    &&& a.name == b.name
    &&& a.id_prefix == b.id_prefix
    &&& a.source == b.source
    &&& a.cote == b.cote
    &&& a.fields@ == b.fields@
}

/// The second import after `i` records, next to the first: nothing made,
/// nothing added, every record the first one made or skipped skipped.
spec fn replay_inv(sts1: Seq<ImportState>, sts2: Seq<ImportState>, i: int) -> bool {
    &&& same_schema(sts2[i].schema, sts2[0].schema)
    &&& sts2[i].counters == sts2[0].counters
    &&& sts2[i].items.len() == 0
    &&& sts2[i].series == sts2[0].series
    &&& sts2[i].created == 0
    &&& sts2[i].genres.len() == 0
    &&& !sts2[i].dirty
    &&& sts2[i].seen_ean == sts2[0].seen_ean
    &&& sts2[i].seen_triple == sts2[0].seen_triple
    &&& sts2[i].skipped == sts1[i].skipped + sts1[i].items.len()
    &&& forall|x: Seq<char>| #[trigger] sts1[i].seen_triple.contains(x) ==> sts2[0].seen_triple.contains(x)
    &&& forall|x: Seq<char>| #[trigger] sts1[i].seen_ean.contains(x) ==> sts2[0].seen_ean.contains(x)
}

/// One record keeps `replay_inv`.
proof fn lemma_replay_step(
    numf: spec_fn(Seq<char>) -> Option<ValueV>,
    sts1: Seq<ImportState>,
    sts2: Seq<ImportState>,
    rs: Seq<Result<Seq<Seq<char>>, Seq<char>>>,
    cs: Seq<usize>,
    ms: Seq<ColumnMapping>,
    options: ImportOptions,
    today1: Seq<char>,
    today2: Seq<char>,
    titre_key: Seq<char>,
    sk: Option<Seq<char>>,
    existing1: Seq<Item>,
    i: int,
)
    requires
        0 <= i < rs.len(),
        options.skip_duplicates,
        step_at(numf, sts1, rs, i, cs, ms, options, today1, titre_key, sk),
        step_at(numf, sts2, rs, i, cs, ms, options, today2, titre_key, sk),
        replay_inv(sts1, sts2, i),
        schema_grows(sts1[i].schema.fields@, sts2[0].schema.fields@),
        schema_grows(sts1[i + 1].schema.fields@, sts2[0].schema.fields@),
        forall|x: Item| sts1[i + 1].items.contains(x) ==> existing1.contains(x),
        forall|x: Series| sts1[i + 1].series.contains(x) ==> sts2[0].series.contains(x),
        sts2[0].seen_triple == triples_of(sts2[0].schema.fields@, existing1),
        sts2[0].seen_ean == eans_of(existing1),
    ensures
        replay_inv(sts1, sts2, i + 1),
{
    let b1 = sts1[i];
    let a1 = sts1[i + 1];
    let b2 = sts2[i];
    let a2 = sts2[i + 1];
    let bf = sts2[0].schema.fields@;
    match rs[i] {
        Err(e) => {},
        Ok(rec) => {
            let prefix = "ligne "@ + crate::text::decimal((i + 2) as nat) + " : "@;
            let (f1a, sc1a, f2a, se1a, ita) = choose|f1: StrMap<Value>, sc1: Schema, f2: StrMap<Value>, se1: Seq<Series>, it: Item|
                #[trigger] row_step_via(numf, b1, a1, rec, prefix, cs, ms, options, today1, titre_key, sk, f1, sc1, f2, se1, it);
            let (f1b, sc1b, f2b, se1b, itb) = choose|f1: StrMap<Value>, sc1: Schema, f2: StrMap<Value>, se1: Seq<Series>, it: Item|
                #[trigger] row_step_via(numf, b2, a2, rec, prefix, cs, ms, options, today2, titre_key, sk, f1, sc1, f2, se1, it);
            let fa = b1.schema.fields@;
            let fa1 = sc1a.fields@;
            lemma_reread_row(fa, fa1, bf, rec, cs, ms, numf);
            lemma_no_options(bf, sc1b.fields@, rec, cs, ms, numf);
            lemma_no_genres(bf, rec, cs, ms, numf, ms.len());
            assert(sc1b.fields@ == b2.schema.fields@);
            assert(fields_view(f1b) == fields_view(f1a));
            assert forall|x: Series| se1a.contains(x) implies b2.series.contains(x) by {
                assert(a1.series == se1a);
            }
            lemma_attached_view(f1a, f2a, f1b, f2b, crate::import::serie_upto(rec, cs, ms, ms.len() as nat),
                crate::import::tome_upto(rec, cs, ms, ms.len() as nat), titre_key, sk, b1.series, se1a, b2.series, se1b,
                options);
            lemma_fields_view_keys(bf, f2a, f2b);
            lemma_dedup_grows(fa1, bf, f2a);
            assert(title_missing(f2a, titre_key) == title_missing(f2b, titre_key));
            if !title_missing(f2a, titre_key) {
                if known_dup(fa1, f2a, b1.seen_ean, b1.seen_triple) {
                    if b1.seen_triple.contains(crate::import::dedup_triple(fa1, f2a)) {
                        assert(b2.seen_triple.contains(crate::import::dedup_triple(bf, f2b)));
                    } else {
                        let e = dedup_ean(f2a).unwrap();
                        assert(b1.seen_ean.contains(e));
                        assert(b2.seen_ean.contains(e));
                    }
                    assert(known_dup(sc1b.fields@, f2b, b2.seen_ean, b2.seen_triple));
                } else {
                    assert(a1.items == b1.items.push(ita));
                    assert(a1.items[b1.items.len() as int] == ita);
                    assert(a1.items.contains(ita));
                    assert(existing1.contains(ita));
                    assert(ita.fields == f2a);
                    let w = choose|w: int| 0 <= w < existing1.len() && existing1[w] == ita;
                    assert(triples_of(bf, existing1)[w] == crate::import::dedup_triple(bf, f2a));
                    assert(b2.seen_triple.contains(crate::import::dedup_triple(bf, f2b)));
                    assert(known_dup(sc1b.fields@, f2b, b2.seen_ean, b2.seen_triple));
                    assert forall|x: Seq<char>| #[trigger] a1.seen_triple.contains(x) implies sts2[0].seen_triple.contains(x) by {
                        if !b1.seen_triple.contains(x) {
                            let u = choose|u: int| 0 <= u < a1.seen_triple.len() && a1.seen_triple[u] == x;
                            assert(u == b1.seen_triple.len()) by {
                                if u < b1.seen_triple.len() {
                                    assert(b1.seen_triple[u] == x);
                                }
                            }
                        }
                    }
                    assert forall|x: Seq<char>| #[trigger] a1.seen_ean.contains(x) implies sts2[0].seen_ean.contains(x) by {
                        if !b1.seen_ean.contains(x) {
                            let u = choose|u: int| 0 <= u < a1.seen_ean.len() && a1.seen_ean[u] == x;
                            assert(dedup_ean(f2a) is Some);
                            assert(u == b1.seen_ean.len()) by {
                                if u < b1.seen_ean.len() {
                                    assert(b1.seen_ean[u] == x);
                                }
                            }
                            lemma_eans_contains(existing1, ita, x);
                        }
                    }
                }
            }
        },
    }
}

/// `replay_inv` after `i` records.
proof fn lemma_replay_upto(
    numf: spec_fn(Seq<char>) -> Option<ValueV>,
    sts1: Seq<ImportState>,
    sts2: Seq<ImportState>,
    rs: Seq<Result<Seq<Seq<char>>, Seq<char>>>,
    cs: Seq<usize>,
    ms: Seq<ColumnMapping>,
    options: ImportOptions,
    today1: Seq<char>,
    today2: Seq<char>,
    titre_key: Seq<char>,
    sk: Option<Seq<char>>,
    existing1: Seq<Item>,
    i: int,
)
    requires
        0 <= i <= rs.len(),
        sts1.len() == rs.len() + 1,
        sts2.len() == rs.len() + 1,
        options.skip_duplicates,
        forall|j: int| 0 <= j < rs.len() ==> #[trigger] step_at(numf, sts1, rs, j, cs, ms, options, today1, titre_key, sk),
        forall|j: int| 0 <= j < rs.len() ==> #[trigger] step_at(numf, sts2, rs, j, cs, ms, options, today2, titre_key, sk),
        replay_inv(sts1, sts2, 0),
        sts1.last().schema.fields@ == sts2[0].schema.fields@,
        forall|x: Item| sts1.last().items.contains(x) ==> existing1.contains(x),
        forall|x: Series| sts1.last().series.contains(x) ==> sts2[0].series.contains(x),
        sts2[0].seen_triple == triples_of(sts2[0].schema.fields@, existing1),
        sts2[0].seen_ean == eans_of(existing1),
    ensures
        replay_inv(sts1, sts2, i),
    decreases i,
{
    if i > 0 {
        lemma_replay_upto(numf, sts1, sts2, rs, cs, ms, options, today1, today2, titre_key, sk, existing1, i - 1);
        lemma_mono(numf, sts1, rs, cs, ms, options, today1, titre_key, sk, i - 1);
        lemma_mono(numf, sts1, rs, cs, ms, options, today1, titre_key, sk, i);
        assert(step_at(numf, sts1, rs, i - 1, cs, ms, options, today1, titre_key, sk));
        assert(step_at(numf, sts2, rs, i - 1, cs, ms, options, today2, titre_key, sk));
        assert forall|x: Series| sts1[i].series.contains(x) implies sts2[0].series.contains(x) by {
            assert(sts1.last().series.contains(x));
        }
        assert forall|x: Item| sts1[i].items.contains(x) implies existing1.contains(x) by {
            assert(sts1.last().items.contains(x));
        }
        lemma_replay_step(numf, sts1, sts2, rs, cs, ms, options, today1, today2, titre_key, sk, existing1, i - 1);
    }
}

/// Law (an import can be replayed without harm): importing a table again,
/// duplicates skipped, into the collection it was first imported into
/// (its schema, a registry and items that include what the first import
/// left) makes no item, creates no series, adds and reports no select
/// value, leaves the counters as they are, and counts as duplicates all
/// the records that the first import made into items or skipped as
/// duplicates.
pub proof fn law_import_replay(
    numf: spec_fn(Seq<char>) -> Option<ValueV>,
    s0: Schema,
    s1: Schema,
    s2: Schema,
    c0: Counters,
    c1: Counters,
    c2: Counters,
    c3: Counters,
    series0: Seq<Series>,
    series1: Seq<Series>,
    existing0: Seq<Item>,
    existing1: Seq<Item>,
    table: (Result<Seq<Seq<char>>, Seq<char>>, Seq<Result<Seq<Seq<char>>, Seq<char>>>),
    ms: Seq<ColumnMapping>,
    options: ImportOptions,
    today1: Seq<char>,
    today2: Seq<char>,
    res1: ImportResult,
    res2: ImportResult,
)
    requires
        options.skip_duplicates,
        import_steps(numf, s0, s1, c0, c1, series0, existing0, table, ms, options, today1, Ok(res1)),
        import_steps(numf, s1, s2, c2, c3, series1, existing1, table, ms, options, today2, Ok(res2)),
        forall|x: Series| res1.series@.contains(x) ==> series1.contains(x),
        forall|x: Item| existing0.contains(x) ==> existing1.contains(x),
        forall|x: Item| res1.items@.contains(x) ==> existing1.contains(x),
    ensures
        res2.items@.len() == 0,
        res2.report.series_created == 0,
        res2.report.genres_added@.len() == 0,
        !res2.schema_changed,
        same_schema(s2, s1),
        c3 == c2,
        res2.report.skipped_duplicates == res1.report.skipped_duplicates + res1.items@.len(),
{
    let r1 = Ok::<ImportResult, String>(res1);
    let r2 = Ok::<ImportResult, String>(res2);
    assert(r1->Ok_0 == res1 && r2->Ok_0 == res2);
    let sts1 = choose|t: Seq<ImportState>| #[trigger] steps_through(numf, t, s0, s1, c0, c1, series0, existing0, table, ms,
        options, today1, r1->Ok_0);
    let sts2 = choose|t: Seq<ImportState>| #[trigger] steps_through(numf, t, s1, s2, c2, c3, series1, existing1, table, ms,
        options, today2, r2->Ok_0);
    assert(steps_through(numf, sts1, s0, s1, c0, c1, series0, existing0, table, ms, options, today1, res1));
    assert(steps_through(numf, sts2, s1, s2, c2, c3, series1, existing1, table, ms, options, today2, res2));
    let rs = table.1;
    let cs = mapped_columns(table.0->Ok_0, ms);
    let tk1 = title_field_spec(s0.fields@).unwrap().key@;
    let sk1 = serie_key_of(s0.fields@);
    let n = rs.len() as int;
    lemma_mono(numf, sts1, rs, cs, ms, options, today1, tk1, sk1, 0);
    let fs0 = s0.fields@;
    let fs1 = s1.fields@;
    assert(sts1[0].schema == s0);
    assert(sts1.last().schema == s1);
    lemma_keys_grow(fs0, fs1);
    let tk2 = title_field_spec(fs1).unwrap().key@;
    assert(tk1 == tk2);
    assert forall|j: int| 0 <= j < rs.len() implies #[trigger] step_at(numf, sts2, rs, j, cs, ms, options, today2, tk1, sk1) by {
        assert(step_at(numf, sts2, rs, j, cs, ms, options, today2, tk2, serie_key_of(fs1)));
    }
    // The first import starts from keys the second one knows.
    assert forall|x: Seq<char>| #[trigger] sts1[0].seen_triple.contains(x) implies sts2[0].seen_triple.contains(x) by {
        let w = choose|w: int| 0 <= w < sts1[0].seen_triple.len() && sts1[0].seen_triple[w] == x;
        let it = existing0[w];
        lemma_dedup_grows(fs0, fs1, it.fields);
        assert(existing0.contains(it));
        let u = choose|u: int| 0 <= u < existing1.len() && existing1[u] == it;
        assert(triples_of(fs1, existing1)[u] == x);
    }
    assert forall|x: Seq<char>| #[trigger] sts1[0].seen_ean.contains(x) implies sts2[0].seen_ean.contains(x) by {
        existing0.lemma_filter_map_contains(|it: Item| dedup_ean(it.fields), x);
        let t = choose|t: Item| #[trigger] existing0.contains(t) && dedup_ean(t.fields) == Some(x);
        lemma_eans_contains(existing1, t, x);
    }
    assert(replay_inv(sts1, sts2, 0));
    assert forall|x: Series| sts1.last().series.contains(x) implies sts2[0].series.contains(x) by {
        vstd::seq_lib::to_multiset_contains(sts1.last().series, x);
        vstd::seq_lib::to_multiset_contains(res1.series@, x);
    }
    lemma_replay_upto(numf, sts1, sts2, rs, cs, ms, options, today1, today2, tk1, sk1, existing1, n);
    let g = crate::text::views(res2.report.genres_added@);
    if g.len() > 0 {
        assert(g.to_set().contains(g[0]));
        assert(sts2.last().genres.to_set().contains(g[0]));
        assert(sts2.last().genres.contains(g[0]));
    }
}

} // verus!
