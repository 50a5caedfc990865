//! Series report (missing volumes) and dashboard statistics, computed from
//! what the index answers.
use vstd::prelude::*;
use crate::text::{owned, str_eq};
use crate::model::{FieldDef, FieldType, Schema, Series};
use crate::store::{same_id};

verus! {

/// The volumes of a series, by status.
#[derive(Debug)]
pub struct SerieReport {
    pub id: String,
    pub nom: String,
    pub terminee: bool,
    /// Owned volumes, sorted.
    pub possedes: Vec<i64>,
    /// Wished volumes, sorted.
    pub souhaites: Vec<i64>,
    /// The gaps between 1 and the highest owned volume.
    pub manquants: Vec<i64>,
}

/// A row of the index attached to a series: series id, volume, status.
pub type SeriesRow = (String, Option<i64>, String);

/// The volumes that the rows give series `id`, wished ones or the others.
pub open spec fn volumes(rows: Seq<SeriesRow>, id: Seq<char>, wished: bool) -> Set<i64> {
    Set::new(|t: i64| exists|k: int| 0 <= k < rows.len() && (#[trigger] rows[k]).0@ == id && rows[k].1 == Some(t)
        && (rows[k].2@ == "souhaite"@) == wished)
}

/// Strictly increasing.
pub open spec fn increasing(s: Seq<i64>) -> bool {
    forall|i: int, j: int| 0 <= i < j < s.len() ==> s[i] < s[j]
}

/// `s` lists the set `t` in increasing order.
pub open spec fn lists(s: Seq<i64>, t: Set<i64>) -> bool {
    increasing(s) && s.to_set() == t
}

/// The highest value of a list, 0 for none.
pub open spec fn max_or_zero(s: Seq<i64>) -> i64
    decreases s.len(),
{
    if s.len() == 0 {
        0
    } else if s.last() > max_or_zero(s.drop_last()) {
        s.last()
    } else {
        max_or_zero(s.drop_last())
    }
}

/// The missing volumes: from 1 to the highest owned one, those not owned.
pub open spec fn gaps(owned: Set<i64>, max: i64) -> Set<i64> {
    Set::new(|t: i64| 1 <= t <= max && !owned.contains(t))
}

/// Whether an earlier entry of the registry has the same id (the volumes
/// then went to that entry).
pub open spec fn seen_before(registry: Seq<Series>, k: int) -> bool {
    exists|j: int| 0 <= j < k && registry[j].id@ == registry[k].id@
}

/// The report of the `k`-th series of the registry.
pub open spec fn report_ok(r: SerieReport, registry: Seq<Series>, rows: Seq<SeriesRow>, k: int) -> bool {
    let s = registry[k];
    let owned = if seen_before(registry, k) { Set::empty() } else { volumes(rows, s.id@, false) };
    let wished = if seen_before(registry, k) { Set::empty() } else { volumes(rows, s.id@, true) };
    &&& r.id@ == s.id@
    &&& r.nom@ == s.nom@
    &&& r.terminee == s.terminee
    &&& lists(r.possedes@, owned)
    &&& lists(r.souhaites@, wished)
    &&& lists(r.manquants@, gaps(owned, max_or_zero(r.possedes@)))
}

/// Inserts `t` into an increasing list unless it is there.
fn insert_sorted(v: &mut Vec<i64>, t: i64)
    requires
        increasing(old(v)@),
    ensures
        increasing(final(v)@),
        final(v)@.to_set() == old(v)@.to_set().insert(t),
{
    let mut p: usize = 0;
    while p < v.len() && v[p] < t
        invariant
            p <= v@.len(),
            increasing(v@),
            forall|j: int| 0 <= j < p ==> v@[j] < t,
        decreases v@.len() - p,
    {
        p = p + 1;
    }
    if p < v.len() && v[p] == t {
        assert(v@.to_set() =~= v@.to_set().insert(t)) by {
            assert(v@.contains(t)) by {
                assert(v@[p as int] == t);
            }
        }
        return;
    }
    let ghost before = v@;
    v.insert(p, t);
    proof {
        crate::import::lemma_insert_to_set(before, p as int, t);
        assert forall|i: int, j: int| 0 <= i < j < v@.len() implies v@[i] < v@[j] by {
            if i < p && j < p {
                assert(v@[i] == before[i] && v@[j] == before[j]);
            } else if i < p && j == p {
                assert(v@[i] == before[i]);
            } else if i < p {
                assert(v@[i] == before[i] && v@[j] == before[j - 1]);
            } else if i == p {
                assert(v@[j] == before[j - 1]);
                assert(before[p as int] >= t);
                if j - 1 > p {
                    assert(before[p as int] < before[j - 1]);
                }
            } else {
                assert(v@[i] == before[i - 1] && v@[j] == before[j - 1]);
            }
        }
    }
}

/// The volumes of series `id` in the rows, wished ones or the others.
fn collect_volumes(rows: &Vec<SeriesRow>, id: &str, wished: bool) -> (r: Vec<i64>)
    ensures
        lists(r@, volumes(rows@, id@, wished)),
{
    let mut out: Vec<i64> = Vec::new();
    let mut k: usize = 0;
    assert(out@.to_set() =~= Set::<i64>::empty());
    while k < rows.len()
        invariant
            k <= rows@.len(),
            increasing(out@),
            out@.to_set() == volumes(rows@.take(k as int), id@, wished),
        decreases rows@.len() - k,
    {
        let row = &rows[k];
        let ghost before = out@.to_set();
        let hit = str_eq(row.0.as_str(), id) && row.1.is_some() && (str_eq(row.2.as_str(), "souhaite") == wished);
        if hit {
            insert_sorted(&mut out, row.1.unwrap());
        }
        proof {
            let a = volumes(rows@.take(k as int), id@, wished);
            let b = volumes(rows@.take(k + 1), id@, wished);
            assert forall|t: i64| b.contains(t) == (a.contains(t) || (hit && row.1 == Some(t))) by {
                if b.contains(t) {
                    let w = choose|w: int| 0 <= w < rows@.take(k + 1).len() && (#[trigger] rows@.take(k + 1)[w]).0@ == id@
                        && rows@.take(k + 1)[w].1 == Some(t) && (rows@.take(k + 1)[w].2@ == "souhaite"@) == wished;
                    if w < k {
                        assert(rows@.take(k as int)[w] == rows@.take(k + 1)[w]);
                    }
                }
                if a.contains(t) {
                    let w = choose|w: int| 0 <= w < rows@.take(k as int).len() && (#[trigger] rows@.take(k as int)[w]).0@ == id@
                        && rows@.take(k as int)[w].1 == Some(t) && (rows@.take(k as int)[w].2@ == "souhaite"@) == wished;
                    assert(rows@.take(k + 1)[w] == rows@.take(k as int)[w]);
                }
                if hit && row.1 == Some(t) {
                    assert(rows@.take(k + 1)[k as int] == *row);
                }
            }
            assert(out@.to_set() =~= b);
        }
        k = k + 1;
    }
    assert(rows@.take(rows@.len() as int) =~= rows@);
    out
}

/// The highest value of a list, 0 for none.
fn max_of(v: &Vec<i64>) -> (r: i64)
    ensures
        r == max_or_zero(v@),
{
    let mut m: i64 = 0;
    let mut i: usize = 0;
    while i < v.len()
        invariant
            i <= v@.len(),
            m == max_or_zero(v@.take(i as int)),
        decreases v@.len() - i,
    {
        assert(v@.take(i + 1).drop_last() =~= v@.take(i as int));
        if v[i] > m {
            m = v[i];
        }
        i = i + 1;
    }
    assert(v@.take(v@.len() as int) =~= v@);
    m
}

/// The gaps of an increasing list of owned volumes, up to `max`.
fn missing_volumes(owned: &Vec<i64>, max: i64) -> (r: Vec<i64>)
    requires
        increasing(owned@),
    ensures
        lists(r@, gaps(owned@.to_set(), max)),
{
    let mut out: Vec<i64> = Vec::new();
    if max < 1 {
        assert(out@.to_set() =~= gaps(owned@.to_set(), max));
        return out;
    }
    let mut t: i64 = 1;
    assert(out@.to_set() =~= Set::<i64>::empty());
    loop
        invariant_except_break
            1 <= t <= max,
            increasing(out@),
            forall|j: int| 0 <= j < out@.len() ==> out@[j] < t,
            out@.to_set() == Set::new(|x: i64| 1 <= x < t && !owned@.to_set().contains(x)),
        ensures
            lists(out@, gaps(owned@.to_set(), max)),
        decreases max - t,
    {
        let mut found = false;
        let mut i: usize = 0;
        while i < owned.len() && !found
            invariant
                i <= owned@.len(),
                found ==> owned@.contains(t),
                !found ==> forall|j: int| 0 <= j < i ==> owned@[j] != t,
            decreases owned@.len() - i,
        {
            if owned[i] == t {
                found = true;
            }
            i = i + 1;
        }
        let ghost before = out@;
        if !found {
            out.push(t);
            proof {
                before.lemma_push_to_set_commute(t);
            }
        }
        proof {
            let next = Set::new(|x: i64| 1 <= x <= t && !owned@.to_set().contains(x));
            assert(out@.to_set() =~= next);
        }
        if t == max {
            assert(Set::new(|x: i64| 1 <= x <= t && !owned@.to_set().contains(x)) =~= gaps(owned@.to_set(), max));
            break;
        }
        t = t + 1;
        assert(Set::new(|x: i64| 1 <= x < t && !owned@.to_set().contains(x)) =~= Set::new(|x: i64| 1 <= x <= t - 1 && !owned@.to_set().contains(x)));
    }
    out
}

/// The report of every series of the registry, in its order: owned and
/// wished volumes from the index rows, and the missing ones.
pub fn series_report(registry: &Vec<Series>, rows: &Vec<SeriesRow>) -> (r: Vec<SerieReport>)
    ensures
        r@.len() == registry@.len(),
        forall|k: int| 0 <= k < r@.len() ==> report_ok(#[trigger] r@[k], registry@, rows@, k),
{
    let mut out: Vec<SerieReport> = Vec::new();
    let mut k: usize = 0;
    while k < registry.len()
        invariant
            k <= registry@.len(),
            out@.len() == k,
            forall|q: int| 0 <= q < k ==> report_ok(#[trigger] out@[q], registry@, rows@, q),
        decreases registry@.len() - k,
    {
        let s = &registry[k];
        let mut earlier = false;
        let mut j: usize = 0;
        while j < k && !earlier
            invariant
                j <= k < registry@.len(),
                earlier ==> seen_before(registry@, k as int),
                !earlier ==> forall|q: int| 0 <= q < j ==> registry@[q].id@ != registry@[k as int].id@,
            decreases k - j,
        {
            if str_eq(registry[j].id.as_str(), registry[k].id.as_str()) {
                earlier = true;
            }
            j = j + 1;
        }
        let (owned, wished) = if earlier {
            let a: Vec<i64> = Vec::new();
            let b: Vec<i64> = Vec::new();
            assert(a@.to_set() =~= Set::<i64>::empty());
            assert(b@.to_set() =~= Set::<i64>::empty());
            (a, b)
        } else {
            (collect_volumes(rows, s.id.as_str(), false), collect_volumes(rows, s.id.as_str(), true))
        };
        let max = max_of(&owned);
        let manquants = missing_volumes(&owned, max);
        let report = SerieReport {
            id: s.id.clone(),
            nom: s.nom.clone(),
            terminee: s.terminee,
            possedes: owned,
            souhaites: wished,
            manquants,
        };
        let ghost before = out@;
        out.push(report);
        proof {
            assert forall|q: int| 0 <= q < k + 1 implies report_ok(#[trigger] out@[q], registry@, rows@, q) by {
                if q < k {
                    assert(out@[q] == before[q]);
                }
            }
        }
        k = k + 1;
    }
    out
}

// ---------------------------------------------------------------------------
// Dashboard
// ---------------------------------------------------------------------------

#[derive(Debug)]
pub struct CollectionCard {
    pub slug: String,
    pub name: String,
    pub possede: u64,
    pub souhaite: u64,
}

#[derive(Debug)]
pub struct GenreCount {
    pub collection: String,
    pub genre: String,
    pub count: u64,
}

#[derive(Debug)]
pub struct YearCount {
    pub collection: String,
    pub annee: i64,
    pub count: u64,
}

#[derive(Debug)]
pub struct IncompleteSerie {
    pub collection: String,
    pub collection_name: String,
    pub nom: String,
    pub manquants: Vec<i64>,
}

#[derive(Debug)]
pub struct DashboardStats {
    pub collections: Vec<CollectionCard>,
    pub total_possede: u64,
    pub total_souhaite: u64,
    pub genres: Vec<GenreCount>,
    pub annees: Vec<YearCount>,
    pub series_incompletes: Vec<IncompleteSerie>,
    pub series_incompletes_total: usize,
}

impl DashboardStats {
    /// Empty statistics.
    pub fn new() -> (r: DashboardStats)
        ensures
            r.collections@.len() == 0 && r.genres@.len() == 0 && r.annees@.len() == 0,
            r.series_incompletes@.len() == 0,
            r.total_possede == 0 && r.total_souhaite == 0 && r.series_incompletes_total == 0,
    {
        DashboardStats {
            collections: Vec::new(),
            total_possede: 0,
            total_souhaite: 0,
            genres: Vec::new(),
            annees: Vec::new(),
            series_incompletes: Vec::new(),
            series_incompletes_total: 0,
        }
    }
}

/// What the index says of one collection.
#[derive(Debug)]
pub struct CollectionFigures {
    pub possede: u64,
    pub souhaite: u64,
    pub genres: Vec<(String, u64)>,
    pub annees: Vec<(i64, u64)>,
    /// The series report, when the schema has a series field.
    pub series: Vec<SerieReport>,
}

/// Whether a schema has a series field.
pub open spec fn has_series_field(fs: Seq<FieldDef>) -> bool {
    exists|i: int| 0 <= i < fs.len() && fs[i].field_type == FieldType::SeriesRef
}

/// A report with missing volumes.
pub open spec fn incomplete(r: SerieReport) -> bool {
    r.manquants@.len() > 0
}

/// `idx` lists the incomplete reports, each once: most missing volumes
/// first, equal counts in the order of the reports.
pub open spec fn gap_order(reports: Seq<SerieReport>, idx: Seq<int>) -> bool {
    &&& idx.len() == reports.filter(|s: SerieReport| incomplete(s)).len()
    &&& forall|q: int| 0 <= q < idx.len() ==> 0 <= #[trigger] idx[q] < reports.len() && incomplete(reports[idx[q]])
    &&& forall|a: int, b: int|
        0 <= a < b < idx.len() ==> reports[#[trigger] idx[a]].manquants@.len() >= reports[#[trigger] idx[b]].manquants@.len()
            && (reports[idx[a]].manquants@.len() == reports[idx[b]].manquants@.len() ==> idx[a] < idx[b])
}

/// The dashboard entry of report `r` of collection `slug` named `name`.
pub open spec fn gap_entry(g: IncompleteSerie, r: SerieReport, slug: Seq<char>, name: Seq<char>) -> bool {
    &&& g.collection@ == slug
    &&& g.collection_name@ == name
    &&& g.nom@ == r.nom@
    &&& g.manquants@ == r.manquants@
}

/// `shown` are the entries of the first (at most fifteen) reports of the
/// order `idx`.
pub open spec fn shown_gaps(reports: Seq<SerieReport>, idx: Seq<int>, shown: Seq<IncompleteSerie>, slug: Seq<char>, name: Seq<char>) -> bool {
    &&& gap_order(reports, idx)
    &&& shown.len() == if idx.len() < 15 { idx.len() } else { 15 }
    &&& forall|q: int| 0 <= q < shown.len() ==> gap_entry(#[trigger] shown[q], reports[idx[q]], slug, name)
}

proof fn lemma_shown_gaps(reports: Seq<SerieReport>, idx: Seq<int>, shown: Seq<IncompleteSerie>, slug: Seq<char>, name: Seq<char>)
    requires
        shown_gaps(reports, idx, shown, slug, name),
    ensures
        exists|x: Seq<int>| #[trigger] shown_gaps(reports, x, shown, slug, name),
{
}

/// Adds the figures of a collection to the dashboard: its card, its
/// genres and years, and its incomplete series (the fifteen with the most
/// missing volumes shown, all counted).
pub fn add_collection(stats: &mut DashboardStats, slug: &str, schema: &Schema, figures: CollectionFigures)
    requires
        old(stats).total_possede + figures.possede <= u64::MAX,
        old(stats).total_souhaite + figures.souhaite <= u64::MAX,
        old(stats).series_incompletes_total + figures.series@.len() <= usize::MAX,
    ensures
        final(stats).total_possede == old(stats).total_possede + figures.possede,
        final(stats).total_souhaite == old(stats).total_souhaite + figures.souhaite,
        final(stats).collections@.len() == old(stats).collections@.len() + 1,
        final(stats).collections@.drop_last() == old(stats).collections@,
        final(stats).collections@.last().slug@ == slug@,
        final(stats).collections@.last().name@ == schema.name@,
        final(stats).collections@.last().possede == figures.possede,
        final(stats).collections@.last().souhaite == figures.souhaite,
        final(stats).genres@.len() == old(stats).genres@.len() + figures.genres@.len(),
        final(stats).genres@.take(old(stats).genres@.len() as int) == old(stats).genres@,
        forall|k: int| 0 <= k < figures.genres@.len() ==> {
            let g = #[trigger] final(stats).genres@[old(stats).genres@.len() + k];
            g.collection@ == slug@ && g.genre@ == figures.genres@[k].0@ && g.count == figures.genres@[k].1
        },
        final(stats).annees@.len() == old(stats).annees@.len() + figures.annees@.len(),
        final(stats).annees@.take(old(stats).annees@.len() as int) == old(stats).annees@,
        forall|k: int| 0 <= k < figures.annees@.len() ==> {
            let y = #[trigger] final(stats).annees@[old(stats).annees@.len() + k];
            y.collection@ == slug@ && y.annee == figures.annees@[k].0 && y.count == figures.annees@[k].1
        },
        !has_series_field(schema.fields@) ==> final(stats).series_incompletes@ == old(stats).series_incompletes@
            && final(stats).series_incompletes_total == old(stats).series_incompletes_total,
        has_series_field(schema.fields@) ==> {
            let n = figures.series@.filter(|s: SerieReport| incomplete(s)).len();
            let old_len = old(stats).series_incompletes@.len() as int;
            &&& final(stats).series_incompletes_total == old(stats).series_incompletes_total + n
            &&& final(stats).series_incompletes@.take(old_len) == old(stats).series_incompletes@
            &&& exists|idx: Seq<int>| #[trigger] shown_gaps(figures.series@, idx,
                final(stats).series_incompletes@.skip(old_len), slug@, schema.name@)
        },
{
    stats.total_possede = stats.total_possede + figures.possede;
    stats.total_souhaite = stats.total_souhaite + figures.souhaite;
    let ghost c0 = stats.collections@;
    stats.collections.push(CollectionCard {
        slug: owned(slug),
        name: schema.name.clone(),
        possede: figures.possede,
        souhaite: figures.souhaite,
    });
    assert(stats.collections@.drop_last() =~= c0);
    let mut new_genres: Vec<GenreCount> = Vec::new();
    let mut i: usize = 0;
    while i < figures.genres.len()
        invariant
            i <= figures.genres@.len(),
            new_genres@.len() == i,
            forall|k: int| 0 <= k < i ==> {
                let g = #[trigger] new_genres@[k];
                g.collection@ == slug@ && g.genre@ == figures.genres@[k].0@ && g.count == figures.genres@[k].1
            },
        decreases figures.genres@.len() - i,
    {
        new_genres.push(GenreCount {
            collection: owned(slug),
            genre: figures.genres[i].0.clone(),
            count: figures.genres[i].1,
        });
        i = i + 1;
    }
    let mut new_years: Vec<YearCount> = Vec::new();
    let mut i: usize = 0;
    while i < figures.annees.len()
        invariant
            i <= figures.annees@.len(),
            new_years@.len() == i,
            forall|k: int| 0 <= k < i ==> {
                let y = #[trigger] new_years@[k];
                y.collection@ == slug@ && y.annee == figures.annees@[k].0 && y.count == figures.annees@[k].1
            },
        decreases figures.annees@.len() - i,
    {
        new_years.push(YearCount {
            collection: owned(slug),
            annee: figures.annees[i].0,
            count: figures.annees[i].1,
        });
        i = i + 1;
    }
    let ghost g0 = stats.genres@;
    let ghost ng = new_genres@;
    stats.genres.append(&mut new_genres);
    assert(stats.genres@.take(g0.len() as int) =~= g0);
    assert forall|k: int| 0 <= k < figures.genres@.len() implies {
        let g = #[trigger] stats.genres@[g0.len() + k];
        g.collection@ == slug@ && g.genre@ == figures.genres@[k].0@ && g.count == figures.genres@[k].1
    } by {
        assert(stats.genres@[g0.len() + k] == ng[k]);
    }
    let ghost y0 = stats.annees@;
    let ghost ny = new_years@;
    stats.annees.append(&mut new_years);
    assert(stats.annees@.take(y0.len() as int) =~= y0);
    assert forall|k: int| 0 <= k < figures.annees@.len() implies {
        let y = #[trigger] stats.annees@[y0.len() + k];
        y.collection@ == slug@ && y.annee == figures.annees@[k].0 && y.count == figures.annees@[k].1
    } by {
        assert(stats.annees@[y0.len() + k] == ny[k]);
    }
    let mut has_series = false;
    let mut f: usize = 0;
    while f < schema.fields.len() && !has_series
        invariant
            f <= schema.fields@.len(),
            has_series ==> has_series_field(schema.fields@),
            !has_series ==> forall|q: int| 0 <= q < f ==> schema.fields@[q].field_type != FieldType::SeriesRef,
        decreases schema.fields@.len() - f,
    {
        if schema.fields[f].field_type == FieldType::SeriesRef {
            has_series = true;
        }
        f = f + 1;
    }
    if !has_series {
        return;
    }
    // Incomplete series, most gaps first; equal counts keep their order.
    let ghost reports = figures.series@;
    let ghost p = |s: SerieReport| incomplete(s);
    let ghost mut idx: Seq<int> = Seq::empty();
    let mut gaps_list: Vec<IncompleteSerie> = Vec::new();
    let mut all = figures.series;
    let mut count: usize = 0;
    let mut k: usize = 0;
    while k < all.len()
        invariant
            k <= all@.len(),
            all@ == reports,
            p == (|s: SerieReport| incomplete(s)),
            count == reports.take(k as int).filter(p).len(),
            count <= k,
            gaps_list@.len() == count,
            idx.len() == count,
            forall|q: int| 0 <= q < idx.len() ==> 0 <= #[trigger] idx[q] < k && incomplete(reports[idx[q]]),
            forall|a: int, b: int|
                0 <= a < b < idx.len() ==> reports[#[trigger] idx[a]].manquants@.len() >= reports[#[trigger] idx[b]].manquants@.len()
                    && (reports[idx[a]].manquants@.len() == reports[idx[b]].manquants@.len() ==> idx[a] < idx[b]),
            forall|q: int| 0 <= q < gaps_list@.len() ==> gap_entry(#[trigger] gaps_list@[q], reports[idx[q]], slug@, schema.name@),
        decreases all@.len() - k,
    {
        proof {
            assert(reports.take(k + 1) =~= reports.take(k as int).push(reports[k as int]));
            reports.take(k as int).lemma_filter_push(reports[k as int], p);
        }
        let len = all[k].manquants.len();
        if len > 0 {
            let mut m: Vec<i64> = Vec::new();
            let mut t: usize = 0;
            while t < len
                invariant
                    k < all@.len(),
                    t <= len,
                    len == all@[k as int].manquants@.len(),
                    m@ == all@[k as int].manquants@.take(t as int),
                decreases len - t,
            {
                m.push(all[k].manquants[t]);
                t = t + 1;
                assert(m@ =~= all@[k as int].manquants@.take(t as int));
            }
            assert(all@[k as int].manquants@.take(len as int) =~= all@[k as int].manquants@);
            let g = IncompleteSerie {
                collection: owned(slug),
                collection_name: schema.name.clone(),
                nom: all[k].nom.clone(),
                manquants: m,
            };
            // Insert after every entry with at least as many gaps.
            let mut pos: usize = 0;
            while pos < gaps_list.len() && gaps_list[pos].manquants.len() >= len
                invariant
                    pos <= gaps_list@.len(),
                    forall|q: int| 0 <= q < pos ==> (#[trigger] gaps_list@[q]).manquants@.len() >= len,
                decreases gaps_list@.len() - pos,
            {
                pos = pos + 1;
            }
            let ghost before = gaps_list@;
            let ghost ib = idx;
            gaps_list.insert(pos, g);
            proof {
                idx = ib.insert(pos as int, k as int);
                assert(gap_entry(g, reports[k as int], slug@, schema.name@));
                assert forall|q: int| 0 <= q < gaps_list@.len() implies gap_entry(#[trigger] gaps_list@[q], reports[idx[q]], slug@, schema.name@) by {
                    if q < pos {
                        assert(gaps_list@[q] == before[q] && idx[q] == ib[q]);
                    } else if q > pos {
                        assert(gaps_list@[q] == before[q - 1] && idx[q] == ib[q - 1]);
                    }
                }
                assert forall|q: int| 0 <= q < idx.len() implies 0 <= #[trigger] idx[q] < k + 1 && incomplete(reports[idx[q]]) by {
                    if q < pos {
                        assert(idx[q] == ib[q]);
                    } else if q > pos {
                        assert(idx[q] == ib[q - 1]);
                    }
                }
                assert forall|a: int, b: int| 0 <= a < b < idx.len() implies reports[#[trigger] idx[a]].manquants@.len()
                    >= reports[#[trigger] idx[b]].manquants@.len() && (reports[idx[a]].manquants@.len()
                    == reports[idx[b]].manquants@.len() ==> idx[a] < idx[b]) by {
                    if a < pos && b < pos {
                        assert(idx[a] == ib[a] && idx[b] == ib[b]);
                    } else if a < pos && b == pos {
                        assert(idx[a] == ib[a]);
                        assert(gap_entry(before[a], reports[ib[a]], slug@, schema.name@));
                    } else if a < pos {
                        assert(idx[a] == ib[a] && idx[b] == ib[b - 1]);
                    } else if a == pos {
                        assert(idx[b] == ib[b - 1]);
                        assert(gap_entry(before[pos as int], reports[ib[pos as int]], slug@, schema.name@));
                        if pos < b - 1 {
                            assert(reports[ib[pos as int]].manquants@.len() >= reports[ib[b - 1]].manquants@.len());
                        }
                    } else {
                        assert(idx[a] == ib[a - 1] && idx[b] == ib[b - 1]);
                    }
                }
            }
            count = count + 1;
        }
        k = k + 1;
    }
    assert(reports.take(reports.len() as int) =~= reports);
    stats.series_incompletes_total = stats.series_incompletes_total + count;
    let ghost s0 = stats.series_incompletes@;
    let shown: usize = if count < 15 { count } else { 15 };
    let mut gaps_list = gaps_list;
    let ghost full = gaps_list@;
    gaps_list.truncate(shown);
    let ghost cut = gaps_list@;
    stats.series_incompletes.append(&mut gaps_list);
    proof {
        assert(stats.series_incompletes@.take(s0.len() as int) =~= s0);
        assert(stats.series_incompletes@.skip(s0.len() as int) =~= cut);
        assert forall|q: int| 0 <= q < cut.len() implies gap_entry(#[trigger] cut[q], reports[idx[q]], slug@, schema.name@) by {
            assert(cut[q] == full[q]);
        }
        assert(shown_gaps(reports, idx, cut, slug@, schema.name@));
        lemma_shown_gaps(reports, idx, cut, slug@, schema.name@);
    }
}

} // verus!
