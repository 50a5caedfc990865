//! Hydration from open catalogues: barcode or title search, candidates shown
//! to the user for validation before anything is written.
//!
//! The network exchanges stay with the caller; this module decides what to
//! ask each catalogue, reads its answers (JSON or Dublin Core XML) into
//! candidates, and maps a chosen candidate onto the fields of a schema.
use vstd::prelude::*;
use crate::text::{
    all_digits, char_is_whitespace, chars_of, contains, contains_seq, is_alnum, is_ascii_alphanumeric,
    is_ascii_digit, is_digit, is_whitespace, join, join_spec, lower, owned, push_char, seq_eq,
    string_of, to_ascii_lower, views, str_eq, trim,
};
use crate::text::{
    before_first, before_sep, char_is_uppercase, remove_chars, without_chars, find, find_last, find_spec, is_uppercase, replace,
    replace_all, rfind_spec, trim_chars, trim_end_char, trim_end_chars, trim_spec, utf8_len_exceeds,
};
use crate::model::{
    add_option_with_unique_code, codes, derive_code_spec, unique_code_spec, unaccent, unaccent_spec, FieldDef,
    FieldType, Schema, SelectOption,
};
use crate::value::{lemma_vviews_push, str_array, str_views, vview, StrMap, ValueV};
use crate::text::{first, is_first, lemma_first_exists, lemma_first_none, lemma_first_some, opt_int};
use crate::import::lemma_first_pointwise;
use crate::value::{as_i64_spec, get_spec, str_of, Value};
use crate::text::{decimal_int, format_i64, is_blank, split, split_spec, starts, starts_with};
use vstd::utf8::encode_utf8;

verus! {

// ---------------------------------------------------------------------------
// Candidates
// ---------------------------------------------------------------------------

/// A raw result from an open catalogue, independent of the target schema.
#[derive(Debug)]
pub struct Candidate {
    pub source: String,
    pub titre: Option<String>,
    pub auteurs: Vec<String>,
    /// Illustrators, when the source tells them apart (BNF).
    pub illustrateurs: Vec<String>,
    pub editeur: Option<String>,
    pub date_parution: Option<String>,
    pub ean: Option<String>,
    pub synopsis: Option<String>,
    pub cover_url: Option<String>,
    /// Relevance score given by the source (MusicBrainz: 0-100).
    pub score: Option<i64>,
    /// Genre proposed by the source, matched against the schema's options.
    pub genre: Option<String>,
    /// Main actors (TMDB).
    pub acteurs: Vec<String>,
}

/// A candidate with every string taken by its characters.
pub ghost struct CandidateV {
    pub source: Seq<char>,
    pub titre: Option<Seq<char>>,
    pub auteurs: Seq<Seq<char>>,
    pub illustrateurs: Seq<Seq<char>>,
    pub editeur: Option<Seq<char>>,
    pub date_parution: Option<Seq<char>>,
    pub ean: Option<Seq<char>>,
    pub synopsis: Option<Seq<char>>,
    pub cover_url: Option<Seq<char>>,
    pub score: Option<i64>,
    pub genre: Option<Seq<char>>,
    pub acteurs: Seq<Seq<char>>,
}

pub open spec fn opt_view(o: Option<String>) -> Option<Seq<char>> {
    match o {
        Some(s) => Some(s@),
        None => None,
    }
}

impl View for Candidate {
    type V = CandidateV;

    open spec fn view(&self) -> CandidateV {
        CandidateV {
            source: self.source@,
            titre: opt_view(self.titre),
            auteurs: views(self.auteurs@),
            illustrateurs: views(self.illustrateurs@),
            editeur: opt_view(self.editeur),
            date_parution: opt_view(self.date_parution),
            ean: opt_view(self.ean),
            synopsis: opt_view(self.synopsis),
            cover_url: opt_view(self.cover_url),
            score: self.score,
            genre: opt_view(self.genre),
            acteurs: views(self.acteurs@),
        }
    }
}

/// The abstract values of a list of candidates.
pub open spec fn cands(v: Seq<Candidate>) -> Seq<CandidateV> {
    v.map_values(|c: Candidate| c@)
}

pub fn clone_opt(o: &Option<String>) -> (r: Option<String>)
    ensures
        opt_view(r) == opt_view(*o),
{
    match o {
        Some(s) => Some(s.clone()),
        None => None,
    }
}

pub fn clone_strings(v: &Vec<String>) -> (r: Vec<String>)
    ensures
        views(r@) == views(v@),
{
    let mut out: Vec<String> = Vec::new();
    let mut i: usize = 0;
    while i < v.len()
        invariant
            i <= v@.len(),
            views(out@) == views(v@.take(i as int)),
        decreases v@.len() - i,
    {
        let ghost before = out@;
        let c = v[i].clone();
        out.push(c);
        assert(views(out@) =~= views(before).push(v@[i as int]@));
        assert(views(v@.take(i + 1)) =~= views(v@.take(i as int)).push(v@[i as int]@));
        i = i + 1;
    }
    assert(v@.take(v@.len() as int) =~= v@);
    out
}

impl Candidate {
    /// A copy of the candidate.
    pub fn duplicate(&self) -> (r: Candidate)
        ensures
            r@ == self@,
    {
        Candidate {
            source: self.source.clone(),
            titre: clone_opt(&self.titre),
            auteurs: clone_strings(&self.auteurs),
            illustrateurs: clone_strings(&self.illustrateurs),
            editeur: clone_opt(&self.editeur),
            date_parution: clone_opt(&self.date_parution),
            ean: clone_opt(&self.ean),
            synopsis: clone_opt(&self.synopsis),
            cover_url: clone_opt(&self.cover_url),
            score: self.score,
            genre: clone_opt(&self.genre),
            acteurs: clone_strings(&self.acteurs),
        }
    }
}

// ---------------------------------------------------------------------------
// Catalogue of sources
// ---------------------------------------------------------------------------

/// A hydration source, as offered in the schema editor.
#[derive(Debug)]
pub struct SourceInfo {
    pub id: &'static str,
    pub label: &'static str,
    pub description: &'static str,
    /// API key to configure, if any.
    pub requires_key: Option<&'static str>,
    /// Schema field keys that the source can fill.
    pub fills: &'static [&'static str],
}

pub open spec fn strs(s: Seq<&str>) -> Seq<Seq<char>> {
    s.map_values(|x: &str| x@)
}

pub open spec fn opt_str(o: Option<&str>) -> Option<Seq<char>> {
    match o {
        Some(s) => Some(s@),
        None => None,
    }
}

/// The available hydration sources.
pub fn sources_catalog() -> (r: Vec<SourceInfo>)
    ensures
        r@.len() == 4,
        r@[0].id@ == "livres"@,
        r@[0].label@ == "Livres — BNF, Google Books, OpenLibrary"@,
        r@[0].description@
            == "Recherche par ISBN (douchette) ou titre. Idéal pour tout ce qui a un ISBN : romans, guides, livres-jeux…"@,
        opt_str(r@[0].requires_key) == None::<Seq<char>>,
        strs(r@[0].fills@) == seq!["titre"@, "auteur"@, "editeur"@, "date_parution"@, "synopsis"@, "isbn"@, "ean"@],
        r@[1].id@ == "bd"@,
        r@[1].label@ == "BD & mangas — BNF, Google Books, OpenLibrary"@,
        r@[1].description@ == "Comme Livres, avec scénariste et dessinateur distingués (BNF)."@,
        opt_str(r@[1].requires_key) == None::<Seq<char>>,
        strs(r@[1].fills@) == seq!["titre"@, "scenariste"@, "dessinateur"@, "editeur"@, "date_parution"@, "synopsis"@, "ean"@],
        r@[2].id@ == "cd"@,
        r@[2].label@ == "Musique — MusicBrainz, Discogs"@,
        r@[2].description@
            == "Recherche par code-barres ou artiste + album. Genres et pochettes via Discogs."@,
        opt_str(r@[2].requires_key) == Some("discogs"@),
        strs(r@[2].fills@) == seq!["titre"@, "artiste"@, "label"@, "editeur"@, "genre"@, "date_sortie"@, "ean"@],
        r@[3].id@ == "dvd"@,
        r@[3].label@ == "Films — TMDB"@,
        r@[3].description@
            == "Recherche par titre uniquement (pas de code-barres). Affiches, synopsis, réalisateur, acteurs, genre."@,
        opt_str(r@[3].requires_key) == Some("tmdb"@),
        strs(r@[3].fills@) == seq!["titre"@, "realisateur"@, "acteurs"@, "genre"@, "date_sortie"@, "synopsis"@],
{
    let livres: &'static [&'static str] = &["titre", "auteur", "editeur", "date_parution", "synopsis", "isbn", "ean"];
    let bd: &'static [&'static str] = &["titre", "scenariste", "dessinateur", "editeur", "date_parution", "synopsis", "ean"];
    let cd: &'static [&'static str] = &["titre", "artiste", "label", "editeur", "genre", "date_sortie", "ean"];
    let dvd: &'static [&'static str] = &["titre", "realisateur", "acteurs", "genre", "date_sortie", "synopsis"];
    let r = vec![
        SourceInfo {
            id: "livres",
            label: "Livres — BNF, Google Books, OpenLibrary",
            description: "Recherche par ISBN (douchette) ou titre. Idéal pour tout ce qui a un ISBN : romans, guides, livres-jeux…",
            requires_key: None,
            fills: livres,
        },
        SourceInfo {
            id: "bd",
            label: "BD & mangas — BNF, Google Books, OpenLibrary",
            description: "Comme Livres, avec scénariste et dessinateur distingués (BNF).",
            requires_key: None,
            fills: bd,
        },
        SourceInfo {
            id: "cd",
            label: "Musique — MusicBrainz, Discogs",
            description: "Recherche par code-barres ou artiste + album. Genres et pochettes via Discogs.",
            requires_key: Some("discogs"),
            fills: cd,
        },
        SourceInfo {
            id: "dvd",
            label: "Films — TMDB",
            description: "Recherche par titre uniquement (pas de code-barres). Affiches, synopsis, réalisateur, acteurs, genre.",
            requires_key: Some("tmdb"),
            fills: dvd,
        },
    ];
    assert(strs(r@[0].fills@) =~= seq!["titre"@, "auteur"@, "editeur"@, "date_parution"@, "synopsis"@, "isbn"@, "ean"@]);
    assert(strs(r@[1].fills@) =~= seq!["titre"@, "scenariste"@, "dessinateur"@, "editeur"@, "date_parution"@, "synopsis"@, "ean"@]);
    assert(strs(r@[2].fills@) =~= seq!["titre"@, "artiste"@, "label"@, "editeur"@, "genre"@, "date_sortie"@, "ean"@]);
    assert(strs(r@[3].fills@) =~= seq!["titre"@, "realisateur"@, "acteurs"@, "genre"@, "date_sortie"@, "synopsis"@]);
    r
}

// ---------------------------------------------------------------------------
// Barcodes
// ---------------------------------------------------------------------------

/// The characters of a query once blanks and dashes are removed.
pub open spec fn barcode_chars(q: Seq<char>) -> Seq<char>
    decreases q.len(),
{
    if q.len() == 0 {
        q
    } else {
        let r = barcode_chars(q.drop_last());
        if !char_is_whitespace(q.last()) && q.last() != '-' {
            r.push(q.last())
        } else {
            r
        }
    }
}

/// A query of 10 or 13 digits, blanks and dashes aside, is a barcode.
pub open spec fn is_barcode(q: Seq<char>) -> bool {
    let d = barcode_chars(q);
    (d.len() == 10 || d.len() == 13) && all_digits(d)
}

/// A string of 10 or 13 digits (blanks and dashes aside) is a barcode.
pub fn looks_like_barcode(query: &str) -> (r: bool)
    ensures
        r == is_barcode(query@),
{
    let cs = chars_of(query);
    let mut q: Vec<char> = Vec::new();
    let mut i: usize = 0;
    while i < cs.len()
        invariant
            i <= cs@.len(),
            cs@ == query@,
            q@ == barcode_chars(cs@.take(i as int)),
        decreases cs@.len() - i,
    {
        assert(cs@.take(i + 1).drop_last() =~= cs@.take(i as int));
        let c = cs[i];
        if !is_whitespace(c) && c != '-' {
            q.push(c);
        }
        i = i + 1;
    }
    assert(cs@.take(cs@.len() as int) =~= cs@);
    if q.len() != 10 && q.len() != 13 {
        return false;
    }
    let mut k: usize = 0;
    while k < q.len()
        invariant
            k <= q@.len(),
            q@ == barcode_chars(query@),
            q@.len() == 10 || q@.len() == 13,
            forall|t: int| 0 <= t < k ==> is_digit(#[trigger] q@[t]),
        decreases q@.len() - k,
    {
        if !is_ascii_digit(q[k]) {
            assert(!is_digit(q@[k as int]));
            return false;
        }
        k = k + 1;
    }
    true
}

// ---------------------------------------------------------------------------
// Combining the answers of several sources
// ---------------------------------------------------------------------------

/// The result of a multi-source search: the candidates found, and the
/// sources that failed, reported apart: "not found" and "out of order"
/// must never be confused.
#[derive(Debug)]
pub struct SearchOutcome {
    pub candidates: Vec<Candidate>,
    pub warnings: Vec<String>,
}

/// The candidates of the successful answers, in order.
pub open spec fn found(rs: Seq<Result<Vec<Candidate>, String>>) -> Seq<CandidateV>
    decreases rs.len(),
{
    if rs.len() == 0 {
        Seq::empty()
    } else {
        match rs.last() {
            Ok(l) => found(rs.drop_last()) + cands(l@),
            Err(_) => found(rs.drop_last()),
        }
    }
}

/// The messages of the failed answers, in order.
pub open spec fn failures(rs: Seq<Result<Vec<Candidate>, String>>) -> Seq<Seq<char>>
    decreases rs.len(),
{
    if rs.len() == 0 {
        Seq::empty()
    } else {
        match rs.last() {
            Ok(_) => failures(rs.drop_last()),
            Err(e) => failures(rs.drop_last()).push(e@),
        }
    }
}

/// The separator between the messages of failed sources.
pub open spec fn dot_sep() -> Seq<char> {
    seq![' ', '·', ' ']
}

/// Gathers the answers of sources asked in parallel: an error only when
/// every one of them failed (their messages joined); otherwise the
/// candidates and the failures as warnings.
pub fn combine(results: Vec<Result<Vec<Candidate>, String>>) -> (r: Result<SearchOutcome, String>)
    ensures
        match r {
            Ok(o) => failures(results@).len() < results@.len() && cands(o.candidates@) == found(results@)
                && views(o.warnings@) == failures(results@),
            Err(e) => failures(results@).len() == results@.len() && e@ == join_spec(failures(results@), dot_sep()),
        },
{
    let total = results.len();
    let mut candidates: Vec<Candidate> = Vec::new();
    let mut warnings: Vec<String> = Vec::new();
    let ghost all = results@;
    for result in it: results
        invariant
            it.seq() == all,
            cands(candidates@) == found(all.take(it.index() as int)),
            views(warnings@) == failures(all.take(it.index() as int)),
            warnings@.len() <= it.index(),
    {
        let ghost k = it.index() as int;
        assert(all.take(k + 1).drop_last() =~= all.take(k));
        assert(all.take(k + 1).last() == result);
        match result {
            Ok(mut list) => {
                let ghost before = candidates@;
                let ghost lv = list@;
                candidates.append(&mut list);
                assert(candidates@ == before + lv);
                assert(cands(candidates@) =~= cands(before) + cands(lv));
            },
            Err(e) => {
                let ghost before = warnings@;
                warnings.push(e);
                assert(views(warnings@) =~= views(before).push(warnings@.last()@));
            },
        }
    }
    assert(all.take(all.len() as int) =~= all);
    if warnings.len() == total {
        let mut sep = String::new();
        push_char(&mut sep, ' ');
        push_char(&mut sep, '·');
        push_char(&mut sep, ' ');
        assert(sep@ =~= dot_sep());
        return Err(join(&warnings, sep.as_str()));
    }
    Ok(SearchOutcome { candidates, warnings })
}

// ---------------------------------------------------------------------------
// Comparing labels
// ---------------------------------------------------------------------------

/// A label reduced to what identifies it: its ASCII letters and digits,
/// accents stripped and lower-cased. Blanks and punctuation are dropped, so
/// `AC/DC` and `ACDC`, or `Italo-Disco` and `italo disco`, give the same
/// text. Every character of the result is ASCII, so its length in bytes is
/// its length in characters.
pub open spec fn norm_spec(s: Seq<char>) -> Seq<char>
    decreases s.len(),
{
    if s.len() == 0 {
        s
    } else {
        let u = unaccent_spec(s.last());
        if is_alnum(u) {
            norm_spec(s.drop_last()).push(lower(u))
        } else {
            norm_spec(s.drop_last())
        }
    }
}

/// Normalises a label for comparison. The lower-casing is the ASCII one:
/// the only characters kept are ASCII letters and digits.
pub fn norm(s: &str) -> (r: Vec<char>)
    ensures
        r@ == norm_spec(s@),
{
    let cs = chars_of(s);
    let mut out: Vec<char> = Vec::new();
    let mut i: usize = 0;
    while i < cs.len()
        invariant
            i <= cs@.len(),
            cs@ == s@,
            out@ == norm_spec(cs@.take(i as int)),
        decreases cs@.len() - i,
    {
        assert(cs@.take(i + 1).drop_last() =~= cs@.take(i as int));
        let u = unaccent(cs[i]);
        if is_ascii_alphanumeric(u) {
            out.push(to_ascii_lower(u));
        }
        i = i + 1;
    }
    assert(cs@.take(cs@.len() as int) =~= cs@);
    out
}

/// Whether two labels name the same thing: equal once normalised, or one
/// of at least four characters contained in the other.
pub open spec fn same_thing_spec(a: Seq<char>, b: Seq<char>) -> bool {
    let na = norm_spec(a);
    let nb = norm_spec(b);
    &&& na.len() > 0
    &&& nb.len() > 0
    &&& (na == nb || (na.len() >= 4 && contains_seq(nb, na)) || (nb.len() >= 4 && contains_seq(na, nb)))
}

/// Do two labels name the same thing? Normalised equality, or inclusion
/// ("Ballbreaker" and "Ballbreaker (remastered)").
pub fn same_thing(a: &str, b: &str) -> (r: bool)
    ensures
        r == same_thing_spec(a@, b@),
{
    let na = norm(a);
    let nb = norm(b);
    if na.len() == 0 || nb.len() == 0 {
        return false;
    }
    seq_eq(&na, &nb) || (na.len() >= 4 && contains(&nb, &na)) || (nb.len() >= 4 && contains(&na, &nb))
}

// ---------------------------------------------------------------------------
// Dublin Core records (BNF)
// ---------------------------------------------------------------------------

/// A character vector from a few characters.
fn chars3(a: char, b: char, c: char) -> (r: Vec<char>)
    ensures
        r@ == seq![a, b, c],
{
    let mut v: Vec<char> = Vec::new();
    v.push(a);
    v.push(b);
    v.push(c);
    assert(v@ =~= seq![a, b, c]);
    v
}

/// The five predefined XML entities replaced by their characters, in the
/// order `&amp;`, `&lt;`, `&gt;`, `&quot;`, `&apos;`.
pub open spec fn xml_unescape_spec(s: Seq<char>) -> Seq<char> {
    let a = replace_all(s, seq!['&', 'a', 'm', 'p', ';'], seq!['&']);
    let b = replace_all(a, seq!['&', 'l', 't', ';'], seq!['<']);
    let c = replace_all(b, seq!['&', 'g', 't', ';'], seq!['>']);
    let d = replace_all(c, seq!['&', 'q', 'u', 'o', 't', ';'], seq!['"']);
    replace_all(d, seq!['&', 'a', 'p', 'o', 's', ';'], seq!['\''])
}

/// Replaces the predefined XML entities.
pub fn xml_unescape(s: &[char]) -> (r: Vec<char>)
    ensures
        r@ == xml_unescape_spec(s@),
{
    let amp = vec!['&', 'a', 'm', 'p', ';'];
    let lt = vec!['&', 'l', 't', ';'];
    let gt = vec!['&', 'g', 't', ';'];
    let quot = vec!['&', 'q', 'u', 'o', 't', ';'];
    let apos = vec!['&', 'a', 'p', 'o', 's', ';'];
    assert(amp@ =~= seq!['&', 'a', 'm', 'p', ';']);
    assert(lt@ =~= seq!['&', 'l', 't', ';']);
    assert(gt@ =~= seq!['&', 'g', 't', ';']);
    assert(quot@ =~= seq!['&', 'q', 'u', 'o', 't', ';']);
    assert(apos@ =~= seq!['&', 'a', 'p', 'o', 's', ';']);
    let r_amp = vec!['&'];
    let r_lt = vec!['<'];
    let r_gt = vec!['>'];
    let r_quot = vec!['"'];
    let r_apos = vec!['\''];
    assert(r_amp@ =~= seq!['&']);
    assert(r_lt@ =~= seq!['<']);
    assert(r_gt@ =~= seq!['>']);
    assert(r_quot@ =~= seq!['"']);
    assert(r_apos@ =~= seq!['\'']);
    let a = replace(s, &amp, &r_amp);
    let b = replace(&a, &lt, &r_lt);
    let c = replace(&b, &gt, &r_gt);
    let d = replace(&c, &quot, &r_quot);
    replace(&d, &apos, &r_apos)
}

/// The characters `s[from..to]`.
pub fn span(s: &[char], from: usize, to: usize) -> (r: Vec<char>)
    requires
        from <= to <= s@.len(),
    ensures
        r@ == s@.subrange(from as int, to as int),
{
    let mut out: Vec<char> = Vec::new();
    let mut i = from;
    while i < to
        invariant
            from <= i <= to <= s@.len(),
            out@ == s@.subrange(from as int, i as int),
        decreases to - i,
    {
        out.push(s[i]);
        i = i + 1;
        assert(out@ =~= s@.subrange(from as int, i as int));
    }
    out
}

pub open spec fn open_tag(tag: Seq<char>) -> Seq<char> {
    seq!['<'] + tag
}

pub open spec fn close_tag(tag: Seq<char>) -> Seq<char> {
    seq!['<', '/'] + tag + seq!['>']
}

/// The text of every `<tag ...>text</tag>` of `rest`, in order: from each
/// opening, up to the first closing after it, trimmed and unescaped; an
/// opening whose `>` comes after that closing gives nothing; the search
/// stops at the first opening without `>` or closing.
pub open spec fn tags_in(rest: Seq<char>, open: Seq<char>, close: Seq<char>) -> Seq<Seq<char>>
    decreases rest.len(),
{
    match find_spec(rest, open, 0) {
        None => Seq::empty(),
        Some(start) => {
            let after = rest.subrange(start, rest.len() as int);
            match find_spec(after, seq!['>'], 0) {
                None => Seq::empty(),
                Some(gt) => match find_spec(after, close, 0) {
                    None => Seq::empty(),
                    Some(end) => {
                        let here: Seq<Seq<char>> = if end > gt {
                            seq![xml_unescape_spec(trim_spec(after.subrange(gt + 1, end)))]
                        } else {
                            Seq::empty()
                        };
                        if 0 <= start && 0 <= end && close.len() > 0 && start + end + close.len()
                            <= rest.len() {
                            here + tags_in(
                                rest.subrange(start + end + close.len(), rest.len() as int),
                                open,
                                close,
                            )
                        } else {
                            here
                        }
                    },
                },
            }
        },
    }
}

/// The values of every occurrence of a tag in an XML fragment.
pub fn xml_tags(xml: &str, tag: &str) -> (r: Vec<String>)
    ensures
        views(r@) == tags_in(xml@, open_tag(tag@), close_tag(tag@)),
{
    let t = chars_of(tag);
    let mut open: Vec<char> = Vec::new();
    open.push('<');
    let mut close: Vec<char> = Vec::new();
    close.push('<');
    close.push('/');
    let mut k: usize = 0;
    while k < t.len()
        invariant
            k <= t@.len(),
            open@ == seq!['<'] + t@.take(k as int),
            close@ == seq!['<', '/'] + t@.take(k as int),
        decreases t@.len() - k,
    {
        open.push(t[k]);
        close.push(t[k]);
        k = k + 1;
        assert(open@ =~= seq!['<'] + t@.take(k as int));
        assert(close@ =~= seq!['<', '/'] + t@.take(k as int));
    }
    close.push('>');
    assert(t@.take(t@.len() as int) =~= tag@);
    assert(open@ =~= open_tag(tag@));
    assert(close@ =~= close_tag(tag@));
    let gt_mark = vec!['>'];
    assert(gt_mark@ =~= seq!['>']);
    let xs = chars_of(xml);
    let mut rest = span(&xs, 0, xs.len());
    assert(rest@ =~= xml@);
    let mut out: Vec<String> = Vec::new();
    loop
        invariant
            open@ == open_tag(tag@),
            close@ == close_tag(tag@),
            gt_mark@ == seq!['>'],
            views(out@) + tags_in(rest@, open@, close@) == tags_in(xml@, open@, close@),
        ensures
            views(out@) == tags_in(xml@, open_tag(tag@), close_tag(tag@)),
        decreases rest@.len(),
    {
        let ghost r0 = rest@;
        let start = match find(&rest, &open, 0) {
            Some(i) => i,
            None => {
                assert(views(out@) + tags_in(r0, open@, close@) =~= views(out@));
                break;
            },
        };
        let after = span(&rest, start, rest.len());
        let gt = match find(&after, &gt_mark, 0) {
            Some(i) => i,
            None => {
                assert(views(out@) + tags_in(r0, open@, close@) =~= views(out@));
                break;
            },
        };
        let end = match find(&after, &close, 0) {
            Some(i) => i,
            None => {
                assert(views(out@) + tags_in(r0, open@, close@) =~= views(out@));
                break;
            },
        };
        let ghost before = out@;
        if end > gt {
            let inner = span(&after, gt + 1, end);
            let trimmed = trim_chars(&inner);
            let value = xml_unescape(&trimmed);
            out.push(string_of(&value));
            assert(views(out@) =~= views(before) + seq![xml_unescape_spec(trim_spec(after@.subrange(gt + 1, end as int)))]);
        } else {
            assert(views(out@) =~= views(before));
        }
        let next = span(&rest, start + end + close.len(), rest.len());
        proof {
            assert(close@.len() > 0);
            let here: Seq<Seq<char>> = if end > gt {
                seq![xml_unescape_spec(trim_spec(after@.subrange(gt + 1, end as int)))]
            } else {
                Seq::empty()
            };
            assert(tags_in(r0, open@, close@) == here + tags_in(next@, open@, close@));
            assert(views(out@) + tags_in(next@, open@, close@) =~= views(before) + tags_in(r0, open@, close@));
        }
        rest = next;
    }
    out
}

/// The core of a BNF person heading: up to " (" (dates), or else without a
/// trailing role (". Illustrateur") when what follows the last ". " starts
/// with an upper-case letter and is longer than four bytes; initials stay.
pub open spec fn bnf_name_core(raw: Seq<char>) -> Seq<char> {
    match find_spec(raw, seq![' ', '('], 0) {
        Some(p) => raw.subrange(0, p),
        None => match rfind_spec(raw, seq!['.', ' ']) {
            Some(p) => {
                let role = raw.subrange(p + 2, raw.len() as int);
                if role.len() > 0 && char_is_uppercase(role[0]) && encode_utf8(role).len() > 4 {
                    raw.subrange(0, p)
                } else {
                    raw
                }
            },
            None => raw,
        },
    }
}

/// "Toriyama, Akira (1955-2024). Auteur du texte" gives "Akira Toriyama".
pub open spec fn clean_bnf_name_spec(raw: Seq<char>) -> Seq<char> {
    let name = trim_end_char(trim_spec(bnf_name_core(raw)), '.');
    match find_spec(name, seq![','], 0) {
        Some(i) => {
            let nom = name.subrange(0, i);
            let prenom = name.subrange(i + 1, name.len() as int);
            if trim_spec(prenom).len() > 0 {
                trim_spec(prenom) + seq![' '] + trim_spec(nom)
            } else {
                name
            }
        },
        None => name,
    }
}

/// Turns a BNF heading "Name, First name (dates). Role" into "First name Name".
pub fn clean_bnf_name(raw: &str) -> (r: String)
    ensures
        r@ == clean_bnf_name_spec(raw@),
{
    let cs = chars_of(raw);
    let paren = vec![' ', '('];
    let dot = vec!['.', ' '];
    assert(paren@ =~= seq![' ', '(']);
    assert(dot@ =~= seq!['.', ' ']);
    let core: Vec<char> = match find(&cs, &paren, 0) {
        Some(p) => span(&cs, 0, p),
        None => match find_last(&cs, &dot) {
            Some(p) => {
                assert(cs@.len() == cs.len());
                let role = span(&cs, p + 2, cs.len());
                if role.len() > 0 && is_uppercase(role[0]) && utf8_len_exceeds(&role, 4) {
                    span(&cs, 0, p)
                } else {
                    span(&cs, 0, cs.len())
                }
            },
            None => span(&cs, 0, cs.len()),
        },
    };
    assert(cs@.subrange(0, cs@.len() as int) =~= cs@);
    assert(core@ == bnf_name_core(raw@));
    let trimmed = trim_chars(&core);
    let name = trim_end_chars(&trimmed, '.');
    let comma = vec![','];
    assert(comma@ =~= seq![',']);
    match find(&name, &comma, 0) {
        Some(i) => {
            let nom = span(&name, 0, i);
            assert(name@.len() == name.len());
            let prenom = span(&name, i + 1, name.len());
            let p = trim_chars(&prenom);
            if p.len() > 0 {
                let n = trim_chars(&nom);
                let mut out = p;
                out.push(' ');
                let mut k: usize = 0;
                let ghost head = out@;
                while k < n.len()
                    invariant
                        k <= n@.len(),
                        out@ == head + n@.take(k as int),
                    decreases n@.len() - k,
                {
                    out.push(n[k]);
                    k = k + 1;
                    assert(out@ =~= head + n@.take(k as int));
                }
                assert(n@.take(n@.len() as int) =~= n@);
                string_of(&out)
            } else {
                string_of(&name)
            }
        },
        None => string_of(&name),
    }
}

// ---------------------------------------------------------------------------
// Reading JSON answers
// ---------------------------------------------------------------------------

pub open spec fn deref_opt(v: Option<&Value>) -> Option<Value> {
    match v {
        Some(x) => Some(*x),
        None => None,
    }
}

/// `v[k]`, where a missing node has no members.
pub open spec fn at(v: Option<Value>, k: Seq<char>) -> Option<Value> {
    match v {
        Some(x) => get_spec(x, k),
        None => None,
    }
}

/// The text of a node, when it is a string that is not blank.
pub open spec fn text_of(v: Option<Value>) -> Option<Seq<char>> {
    match v {
        Some(Value::Str(t)) => if trim_spec(t@).len() > 0 {
            Some(t@)
        } else {
            None
        },
        _ => None,
    }
}

/// The elements of an array node; none for anything else.
pub open spec fn elems(v: Option<Value>) -> Seq<Value> {
    match v {
        Some(Value::Array(a)) => a@,
        _ => Seq::empty(),
    }
}

/// The first element of an array node.
pub open spec fn first_elem(v: Option<Value>) -> Option<Value> {
    if elems(v).len() > 0 {
        Some(elems(v)[0])
    } else {
        None
    }
}

/// The integer of a number node.
pub open spec fn int_of(v: Option<Value>) -> Option<i64> {
    match v {
        Some(x) => as_i64_spec(x),
        None => None,
    }
}

/// `x[key]`, or `x` itself without a key.
pub open spec fn pick(x: Value, key: Option<Seq<char>>) -> Option<Value> {
    match key {
        Some(k) => get_spec(x, k),
        None => Some(x),
    }
}

/// The non-blank texts found in the elements of an array node (under `key`).
pub open spec fn texts_at(v: Option<Value>, key: Option<Seq<char>>) -> Seq<Seq<char>> {
    elems(v).filter_map(|x: Value| text_of(pick(x, key)))
}

/// Member `k` of an optional node.
pub fn node<'a>(v: Option<&'a Value>, k: &str) -> (r: Option<&'a Value>)
    ensures
        deref_opt(r) == at(deref_opt(v), k@),
{
    match v {
        Some(x) => x.get(k),
        None => None,
    }
}

/// The non-blank text of a node (`as_str`, blank strings excluded).
pub fn text(v: Option<&Value>) -> (r: Option<String>)
    ensures
        opt_view(r) == text_of(deref_opt(v)),
{
    match v {
        Some(Value::Str(t)) => {
            if is_blank(t.as_str()) {
                None
            } else {
                Some(t.clone())
            }
        },
        _ => None,
    }
}

/// The elements of an array node.
pub fn elements<'a>(v: Option<&'a Value>) -> (r: &'a [Value])
    ensures
        r@ == elems(deref_opt(v)),
{
    match v {
        Some(Value::Array(a)) => a.as_slice(),
        _ => &[],
    }
}

/// The integer of a number node.
pub fn integer(v: Option<&Value>) -> (r: Option<i64>)
    ensures
        r == int_of(deref_opt(v)),
{
    match v {
        Some(x) => x.as_i64(),
        None => None,
    }
}

pub open spec fn opt_key(key: Option<&str>) -> Option<Seq<char>> {
    match key {
        Some(k) => Some(k@),
        None => None,
    }
}

/// The non-blank texts of the elements of an array node, or of their
/// member `key`.
pub fn texts(v: Option<&Value>, key: Option<&str>) -> (r: Vec<String>)
    ensures
        views(r@) == texts_at(deref_opt(v), opt_key(key)),
{
    let items = elements(v);
    let ghost f = |x: Value| text_of(pick(x, opt_key(key)));
    let mut out: Vec<String> = Vec::new();
    let mut i: usize = 0;
    while i < items.len()
        invariant
            i <= items@.len(),
            items@ == elems(deref_opt(v)),
            f == (|x: Value| text_of(pick(x, opt_key(key)))),
            views(out@) == items@.take(i as int).filter_map(f),
        decreases items@.len() - i,
    {
        proof {
            items@.lemma_filter_map_take_succ(f, i as int);
        }
        let x = &items[i];
        let t = match key {
            Some(k) => text(x.get(k)),
            None => text(Some(x)),
        };
        let ghost before = out@;
        match t {
            Some(s) => {
                out.push(s);
                assert(views(out@) =~= views(before) + seq![out@.last()@]);
            },
            None => {},
        }
        i = i + 1;
    }
    assert(items@.take(items@.len() as int) =~= items@);
    out
}

/// The first element of an array node.
pub fn first_element<'a>(v: Option<&'a Value>) -> (r: Option<&'a Value>)
    ensures
        deref_opt(r) == first_elem(deref_opt(v)),
{
    let items = elements(v);
    if items.len() > 0 {
        Some(&items[0])
    } else {
        None
    }
}

/// `base + middle + tail`.
pub fn concat3(base: &str, middle: &str, tail: &str) -> (r: String)
    ensures
        r@ == base@ + middle@ + tail@,
{
    let mut out = owned(base);
    out.append(middle);
    out.append(tail);
    out
}

// ---------------------------------------------------------------------------
// MusicBrainz (audio CD), covers from the Cover Art Archive
// ---------------------------------------------------------------------------

/// The MusicBrainz search text: `barcode:` and the digits for a barcode
/// (blanks and dashes removed), the query itself otherwise.
pub open spec fn musicbrainz_text_spec(query: Seq<char>, barcode: bool) -> Seq<char> {
    if barcode {
        "barcode:"@ + without_chars(query, '-', ' ')
    } else {
        query
    }
}

pub fn musicbrainz_text(query: &str, barcode: bool) -> (r: String)
    ensures
        r@ == musicbrainz_text_spec(query@, barcode),
{
    if barcode {
        let cs = chars_of(query);
        let digits = remove_chars(&cs, '-', ' ');
        let mut out = owned("barcode:");
        out.append(string_of(&digits).as_str());
        out
    } else {
        owned(query)
    }
}

/// A MusicBrainz release as a candidate; none without a title or an id.
pub open spec fn mb_release(r: Value) -> Option<CandidateV> {
    match (text_of(get_spec(r, "title"@)), text_of(get_spec(r, "id"@))) {
        (Some(titre), Some(mbid)) => Some(
            CandidateV {
                source: "MusicBrainz"@,
                titre: Some(titre),
                auteurs: texts_at(get_spec(r, "artist-credit"@), Some("name"@)),
                illustrateurs: Seq::empty(),
                editeur: text_of(at(at(first_elem(get_spec(r, "label-info"@)), "label"@), "name"@)),
                date_parution: text_of(get_spec(r, "date"@)),
                ean: text_of(get_spec(r, "barcode"@)),
                synopsis: None,
                cover_url: Some("https://coverartarchive.org/release/"@ + mbid + "/front-500"@),
                score: int_of(get_spec(r, "score"@)),
                genre: None,
                acteurs: Seq::empty(),
            },
        ),
        _ => None,
    }
}

pub open spec fn mb_release_fn() -> spec_fn(Value) -> Option<CandidateV> {
    |r: Value| mb_release(r)
}

/// One release of a MusicBrainz answer.
pub fn musicbrainz_release(r: &Value) -> (c: Option<Candidate>)
    ensures
        match c {
            Some(c) => mb_release(*r) == Some(c@),
            None => mb_release(*r).is_none(),
        },
{
    let titre = match text(r.get("title")) {
        Some(t) => t,
        None => return None,
    };
    let mbid = match text(r.get("id")) {
        Some(t) => t,
        None => return None,
    };
    let label = node(node(first_element(r.get("label-info")), "label"), "name");
    let c = Candidate {
        source: owned("MusicBrainz"),
        titre: Some(titre),
        auteurs: texts(r.get("artist-credit"), Some("name")),
        illustrateurs: Vec::new(),
        editeur: text(label),
        date_parution: text(r.get("date")),
        ean: text(r.get("barcode")),
        synopsis: None,
        cover_url: Some(concat3("https://coverartarchive.org/release/", mbid.as_str(), "/front-500")),
        score: integer(r.get("score")),
        genre: None,
        acteurs: Vec::new(),
    };
    assert(c@.illustrateurs =~= Seq::<Seq<char>>::empty());
    assert(c@.acteurs =~= Seq::<Seq<char>>::empty());
    Some(c)
}

/// The candidates of a MusicBrainz release search answer.
pub fn musicbrainz_candidates(resp: &Value) -> (r: Vec<Candidate>)
    ensures
        cands(r@) == elems(get_spec(*resp, "releases"@)).filter_map(mb_release_fn()),
{
    let items = elements(resp.get("releases"));
    let mut out: Vec<Candidate> = Vec::new();
    let mut i: usize = 0;
    while i < items.len()
        invariant
            i <= items@.len(),
            items@ == elems(get_spec(*resp, "releases"@)),
            cands(out@) == items@.take(i as int).filter_map(mb_release_fn()),
        decreases items@.len() - i,
    {
        proof {
            items@.lemma_filter_map_take_succ(mb_release_fn(), i as int);
        }
        let ghost before = out@;
        match musicbrainz_release(&items[i]) {
            Some(c) => {
                out.push(c);
                assert(cands(out@) =~= cands(before) + seq![out@.last()@]);
            },
            None => {},
        }
        i = i + 1;
    }
    assert(items@.take(items@.len() as int) =~= items@);
    out
}

// ---------------------------------------------------------------------------
// Discogs (CD): reliable genres, precise editions, covers
// ---------------------------------------------------------------------------

/// Discogs genres (English) as labels of the default CD schema.
pub open spec fn discogs_genre_fr_spec(genre: Seq<char>) -> Seq<char> {
    if genre == "Classical"@ {
        "Classique"@
    } else if genre == "Electronic"@ {
        "Électro"@
    } else if genre == "Hip Hop"@ {
        "Rap / Hip-hop"@
    } else if genre == "Folk, World, & Country"@ {
        "Folk"@
    } else if genre == "Stage & Screen"@ {
        "Bande originale"@
    } else {
        genre
    }
}

pub fn discogs_genre_fr(genre: &str) -> (r: String)
    ensures
        r@ == discogs_genre_fr_spec(genre@),
{
    if str_eq(genre, "Classical") {
        owned("Classique")
    } else if str_eq(genre, "Electronic") {
        owned("Électro")
    } else if str_eq(genre, "Hip Hop") {
        owned("Rap / Hip-hop")
    } else if str_eq(genre, "Folk, World, & Country") {
        owned("Folk")
    } else if str_eq(genre, "Stage & Screen") {
        owned("Bande originale")
    } else {
        owned(genre)
    }
}

/// The query parameters of a Discogs search.
pub open spec fn discogs_params_spec(query: Seq<char>, barcode: bool) -> Seq<(Seq<char>, Seq<char>)> {
    seq![("type"@, "release"@), ("format"@, "CD"@), ("per_page"@, "8"@)] + if barcode {
        seq![("barcode"@, without_chars(query, '-', ' '))]
    } else {
        seq![("q"@, query)]
    }
}

pub open spec fn pair_views(v: Seq<(String, String)>) -> Seq<(Seq<char>, Seq<char>)> {
    v.map_values(|p: (String, String)| (p.0@, p.1@))
}

/// The parameters of a Discogs release search: CD releases, eight at most,
/// by barcode (blanks and dashes removed) or by free text.
pub fn discogs_params(query: &str, barcode: bool) -> (r: Vec<(String, String)>)
    ensures
        pair_views(r@) == discogs_params_spec(query@, barcode),
{
    let mut v: Vec<(String, String)> = Vec::new();
    v.push((owned("type"), owned("release")));
    v.push((owned("format"), owned("CD")));
    v.push((owned("per_page"), owned("8")));
    if barcode {
        let cs = chars_of(query);
        let cleaned = remove_chars(&cs, '-', ' ');
        v.push((owned("barcode"), string_of(&cleaned)));
    } else {
        v.push((owned("q"), owned(query)));
    }
    assert(pair_views(v@) =~= discogs_params_spec(query@, barcode));
    v
}

/// The `Authorization` header of a Discogs request.
pub fn discogs_authorization(token: &str) -> (r: String)
    ensures
        r@ == "Discogs token="@ + trim_spec(token@),
{
    let mut out = owned("Discogs token=");
    out.append(trim(token));
    out
}

/// The message of a failed Discogs exchange: a refused token is explained;
/// otherwise the detail, with the token masked wherever it appears.
pub fn discogs_error(unauthorized: bool, detail: &str, token: &str) -> (r: String)
    ensures
        r@ == (if unauthorized {
            "Discogs : token refusé — vérifiez-le dans discogs.com → Settings → Developers"@
        } else {
            "Discogs : "@ + replace_all(detail@, token@, key_mask())
        }),
{
    if unauthorized {
        owned("Discogs : token refusé — vérifiez-le dans discogs.com → Settings → Developers")
    } else {
        let mut out = owned("Discogs : ");
        out.append(mask_key(detail, token).as_str());
        out
    }
}

/// Discogs puts "Artist - Title" in a single field.
pub open spec fn discogs_split(full: Seq<char>) -> (Seq<char>, Seq<char>) {
    match find_spec(full, seq![' ', '-', ' '], 0) {
        Some(i) => (trim_spec(full.subrange(0, i)), trim_spec(full.subrange(i + 3, full.len() as int))),
        None => (Seq::empty(), full),
    }
}

/// A year given as a string, or as an integer written in decimal.
pub open spec fn year_text(v: Option<Value>) -> Option<Seq<char>> {
    match v {
        Some(Value::Str(t)) => Some(t@),
        Some(x) => match as_i64_spec(x) {
            Some(y) => Some(decimal_int(y as int)),
            None => None,
        },
        None => None,
    }
}

/// The style (precise) if any, else the genre (broad), in French.
pub open spec fn discogs_genre_of(r: Value) -> Option<Seq<char>> {
    let style = text_of(first_elem(get_spec(r, "style"@)));
    let g = if style is Some {
        style
    } else {
        text_of(first_elem(get_spec(r, "genre"@)))
    };
    match g {
        Some(x) => Some(discogs_genre_fr_spec(x)),
        None => None,
    }
}

/// A Discogs search result as a candidate; none without a title.
pub open spec fn discogs_result(r: Value, query: Seq<char>, barcode: bool) -> Option<CandidateV> {
    match text_of(get_spec(r, "title"@)) {
        Some(full) => {
            let (artiste, titre) = discogs_split(full);
            Some(
                CandidateV {
                    source: "Discogs"@,
                    titre: Some(titre),
                    auteurs: if artiste.len() == 0 { Seq::empty() } else { seq![artiste] },
                    illustrateurs: Seq::empty(),
                    editeur: text_of(first_elem(get_spec(r, "label"@))),
                    date_parution: year_text(get_spec(r, "year"@)),
                    ean: if barcode { Some(without_chars(query, '-', ' ')) } else { None },
                    synopsis: None,
                    cover_url: match text_of(get_spec(r, "cover_image"@)) {
                        Some(u) => if contains_seq(u, "spacer.gif"@) { None } else { Some(u) },
                        None => None,
                    },
                    score: None,
                    genre: discogs_genre_of(r),
                    acteurs: Seq::empty(),
                },
            )
        },
        None => None,
    }
}

pub open spec fn discogs_result_fn(query: Seq<char>, barcode: bool) -> spec_fn(Value) -> Option<CandidateV> {
    |r: Value| discogs_result(r, query, barcode)
}

/// One result of a Discogs search answer.
pub fn discogs_release(r: &Value, query: &str, barcode: bool) -> (c: Option<Candidate>)
    ensures
        match c {
            Some(c) => discogs_result(*r, query@, barcode) == Some(c@),
            None => discogs_result(*r, query@, barcode).is_none(),
        },
{
    let full = match text(r.get("title")) {
        Some(t) => t,
        None => return None,
    };
    let fc = chars_of(full.as_str());
    let dash = chars3(' ', '-', ' ');
    let (artiste, titre) = match find(&fc, &dash, 0) {
        Some(i) => {
            assert(fc@.len() == fc.len());
            let a = trim_chars(&span(&fc, 0, i));
            let t = trim_chars(&span(&fc, i + 3, fc.len()));
            (a, t)
        },
        None => (Vec::new(), span(&fc, 0, fc.len())),
    };
    assert(fc@.subrange(0, fc@.len() as int) =~= fc@);
    assert((artiste@, titre@) == discogs_split(full@));
    let auteurs: Vec<String> = if artiste.len() == 0 {
        Vec::new()
    } else {
        let mut v = Vec::new();
        v.push(string_of(&artiste));
        v
    };
    let year = r.get("year");
    let date_parution = match year {
        Some(Value::Str(t)) => Some(t.clone()),
        Some(x) => match x.as_i64() {
            Some(y) => Some(format_i64(y)),
            None => None,
        },
        None => None,
    };
    let ean = if barcode {
        let qc = chars_of(query);
        Some(string_of(&remove_chars(&qc, '-', ' ')))
    } else {
        None
    };
    let cover_url = match text(r.get("cover_image")) {
        Some(u) => {
            let uc = chars_of(u.as_str());
            let spacer = chars_of("spacer.gif");
            if contains(&uc, &spacer) {
                None
            } else {
                Some(u)
            }
        },
        None => None,
    };
    let style = text(first_element(r.get("style")));
    let g = match style {
        Some(x) => Some(x),
        None => text(first_element(r.get("genre"))),
    };
    let genre = match g {
        Some(x) => Some(discogs_genre_fr(x.as_str())),
        None => None,
    };
    let c = Candidate {
        source: owned("Discogs"),
        titre: Some(string_of(&titre)),
        auteurs,
        illustrateurs: Vec::new(),
        editeur: text(first_element(r.get("label"))),
        date_parution,
        ean,
        synopsis: None,
        cover_url,
        score: None,
        genre,
        acteurs: Vec::new(),
    };
    assert(c@.illustrateurs =~= Seq::<Seq<char>>::empty());
    assert(c@.acteurs =~= Seq::<Seq<char>>::empty());
    assert(c@.auteurs =~= (if artiste@.len() == 0 { Seq::empty() } else { seq![artiste@] }));
    Some(c)
}

/// The candidates of a Discogs search answer.
pub fn discogs_candidates(resp: &Value, query: &str, barcode: bool) -> (r: Vec<Candidate>)
    ensures
        cands(r@) == elems(get_spec(*resp, "results"@)).filter_map(discogs_result_fn(query@, barcode)),
{
    let items = elements(resp.get("results"));
    let ghost f = discogs_result_fn(query@, barcode);
    let mut out: Vec<Candidate> = Vec::new();
    let mut i: usize = 0;
    while i < items.len()
        invariant
            i <= items@.len(),
            items@ == elems(get_spec(*resp, "results"@)),
            f == discogs_result_fn(query@, barcode),
            cands(out@) == items@.take(i as int).filter_map(f),
        decreases items@.len() - i,
    {
        proof {
            items@.lemma_filter_map_take_succ(f, i as int);
        }
        let ghost before = out@;
        match discogs_release(&items[i], query, barcode) {
            Some(c) => {
                out.push(c);
                assert(cands(out@) =~= cands(before) + seq![out@.last()@]);
            },
            None => {},
        }
        i = i + 1;
    }
    assert(items@.take(items@.len() as int) =~= items@);
    out
}

/// A candidate whose title names `titre` and one of whose authors names
/// `artiste`.
pub open spec fn strict_match(c: CandidateV, artiste: Seq<char>, titre: Seq<char>) -> bool {
    &&& c.titre matches Some(t) && same_thing_spec(t, titre)
    &&& exists|k: int| 0 <= k < c.auteurs.len() && same_thing_spec(#[trigger] c.auteurs[k], artiste)
}

/// Keeps the candidates whose title and artist both match the record: the
/// score alone lies on free-text queries.
pub fn keep_matching(candidates: Vec<Candidate>, artiste: &str, titre: &str) -> (r: Vec<Candidate>)
    ensures
        cands(r@) == cands(candidates@).filter(|c: CandidateV| strict_match(c, artiste@, titre@)),
{
    let ghost p = |c: CandidateV| strict_match(c, artiste@, titre@);
    let ghost all = candidates@;
    let mut out: Vec<Candidate> = Vec::new();
    for c in it: candidates
        invariant
            it.seq() == all,
            p == (|c: CandidateV| strict_match(c, artiste@, titre@)),
            cands(out@) == cands(all.take(it.index() as int)).filter(p),
    {
        let ghost k = it.index() as int;
        assert(cands(all.take(k + 1)) =~= cands(all.take(k)).push(c@));
        proof {
            cands(all.take(k)).lemma_filter_push(c@, p);
        }
        let title_ok = match &c.titre {
            Some(t) => same_thing(t.as_str(), titre),
            None => false,
        };
        let mut artist_ok = false;
        let mut j: usize = 0;
        while j < c.auteurs.len() && !artist_ok
            invariant
                j <= c.auteurs@.len(),
                artist_ok ==> exists|q: int| 0 <= q < c@.auteurs.len() && same_thing_spec(#[trigger] c@.auteurs[q], artiste@),
                !artist_ok ==> forall|q: int| 0 <= q < j ==> !same_thing_spec(#[trigger] c@.auteurs[q], artiste@),
            decreases c.auteurs@.len() - j,
        {
            assert(c@.auteurs[j as int] == c.auteurs@[j as int]@);
            if same_thing(c.auteurs[j].as_str(), artiste) {
                artist_ok = true;
            }
            j = j + 1;
        }
        assert(c@.auteurs.len() == c.auteurs@.len());
        let ghost before = out@;
        if title_ok && artist_ok {
            out.push(c);
            assert(cands(out@) =~= cands(before).push(out@.last()@));
        }
    }
    assert(all.take(all.len() as int) =~= all);
    out
}

// ---------------------------------------------------------------------------
// TMDB (DVD / Blu-ray): title search, posters, French language
// ---------------------------------------------------------------------------

/// TMDB genres (stable identifiers) as French labels.
pub open spec fn tmdb_genre_spec(id: i64) -> Option<Seq<char>> {
    if id == 28 {
        Some("Action"@)
    } else if id == 12 {
        Some("Aventure"@)
    } else if id == 16 {
        Some("Animation"@)
    } else if id == 35 {
        Some("Comédie"@)
    } else if id == 99 {
        Some("Documentaire"@)
    } else if id == 18 {
        Some("Drame"@)
    } else if id == 14 {
        Some("Fantastique"@)
    } else if id == 27 {
        Some("Horreur"@)
    } else if id == 878 {
        Some("Science-Fiction"@)
    } else if id == 53 {
        Some("Thriller"@)
    } else {
        None
    }
}

pub fn tmdb_genre(id: i64) -> (r: Option<&'static str>)
    ensures
        opt_str(r) == tmdb_genre_spec(id),
{
    match id {
        28 => Some("Action"),
        12 => Some("Aventure"),
        16 => Some("Animation"),
        35 => Some("Comédie"),
        99 => Some("Documentaire"),
        18 => Some("Drame"),
        14 => Some("Fantastique"),
        27 => Some("Horreur"),
        878 => Some("Science-Fiction"),
        53 => Some("Thriller"),
        _ => None,
    }
}

/// The address of a TMDB v3 endpoint.
pub fn tmdb_url(path: &str) -> (r: String)
    ensures
        r@ == "https://api.themoviedb.org/3/"@ + path@,
{
    let mut out = owned("https://api.themoviedb.org/3/");
    out.append(path);
    out
}

/// A v4 token (`eyJ…`) goes in a bearer header; a v3 key is a query
/// parameter.
pub fn tmdb_uses_bearer(key: &str) -> (r: bool)
    ensures
        r == (key@.len() >= 3 && key@.subrange(0, 3) == seq!['e', 'y', 'J']),
{
    let kc = chars_of(key);
    let p = chars3('e', 'y', 'J');
    crate::text::starts_with(&kc, &p)
}

/// The message of a failed TMDB exchange: a refused key is explained;
/// otherwise the detail, with the key masked wherever it appears.
pub fn tmdb_error(unauthorized: bool, detail: &str, key: &str) -> (r: String)
    ensures
        r@ == (if unauthorized {
            "TMDB : clé d'API refusée — vérifiez-la dans themoviedb.org → Paramètres → API"@
        } else {
            "TMDB : "@ + replace_all(detail@, key@, key_mask())
        }),
{
    if unauthorized {
        owned("TMDB : clé d'API refusée — vérifiez-la dans themoviedb.org → Paramètres → API")
    } else {
        let mut out = owned("TMDB : ");
        out.append(mask_key(detail, key).as_str());
        out
    }
}

/// The credits endpoint of a film.
pub fn tmdb_credits_path(id: i64) -> (r: String)
    ensures
        r@ == "movie/"@ + decimal_int(id as int) + "/credits"@,
{
    let n = format_i64(id);
    concat3("movie/", n.as_str(), "/credits")
}

/// The first `n` elements of `s` (all of them when there are fewer).
pub open spec fn first_n<A>(s: Seq<A>, n: int) -> Seq<A> {
    if s.len() <= n {
        s
    } else {
        s.take(n)
    }
}

/// The first five results of a TMDB search that have a title.
pub open spec fn tmdb_titled(resp: Value) -> Seq<Value> {
    first_n(elems(get_spec(resp, "results"@)), 5).filter_map(
        |m: Value| if text_of(get_spec(m, "title"@)) is Some { Some(m) } else { None },
    )
}

/// The first element yielding a value (`Iterator::find_map`).
pub open spec fn find_map<A, B>(s: Seq<A>, f: spec_fn(A) -> Option<B>) -> Option<B>
    decreases s.len(),
{
    if s.len() == 0 {
        None
    } else {
        match f(s[0]) {
            Some(b) => Some(b),
            None => find_map(s.drop_first(), f),
        }
    }
}

pub open spec fn tmdb_directors(credits: Value) -> Seq<Seq<char>> {
    elems(get_spec(credits, "crew"@)).filter_map(
        |m: Value| if at(Some(m), "job"@) matches Some(j) && str_of(j) == Some("Director"@) {
            text_of(get_spec(m, "name"@))
        } else {
            None
        },
    )
}

/// A titled TMDB film and its credits as a candidate.
pub open spec fn tmdb_movie(movie: Value, credits: Value) -> CandidateV {
    CandidateV {
        source: "TMDB"@,
        titre: text_of(get_spec(movie, "title"@)),
        auteurs: tmdb_directors(credits),
        illustrateurs: Seq::empty(),
        editeur: None,
        date_parution: text_of(get_spec(movie, "release_date"@)),
        ean: None,
        synopsis: text_of(get_spec(movie, "overview"@)),
        cover_url: match text_of(get_spec(movie, "poster_path"@)) {
            Some(p) => Some("https://image.tmdb.org/t/p/w500"@ + p),
            None => None,
        },
        score: int_of(get_spec(movie, "vote_count"@)),
        genre: find_map(
            elems(get_spec(movie, "genre_ids"@)),
            |x: Value| match as_i64_spec(x) {
                Some(id) => tmdb_genre_spec(id),
                None => None,
            },
        ),
        acteurs: first_n(elems(get_spec(credits, "cast"@)), 4).filter_map(|m: Value| text_of(get_spec(m, "name"@))),
    }
}

/// The identifiers of the titled films among the first five results, whose
/// credits are to be fetched (0 when a film has none).
pub fn tmdb_credit_ids(resp: &Value) -> (r: Vec<i64>)
    ensures
        r@ == tmdb_titled(*resp).map_values(|m: Value| match int_of(get_spec(m, "id"@)) {
            Some(i) => i,
            None => 0,
        }),
{
    let items = elements(resp.get("results"));
    let n: usize = if items.len() < 5 { items.len() } else { 5 };
    let ghost g = |m: Value| if text_of(get_spec(m, "title"@)) is Some { Some(m) } else { None };
    let ghost h = |m: Value| match int_of(get_spec(m, "id"@)) {
        Some(i) => i,
        None => 0,
    };
    let mut out: Vec<i64> = Vec::new();
    let mut i: usize = 0;
    while i < n
        invariant
            n <= items@.len(),
            n <= 5,
            i <= n,
            items@ == elems(get_spec(*resp, "results"@)),
            g == (|m: Value| if text_of(get_spec(m, "title"@)) is Some { Some(m) } else { None }),
            h == (|m: Value| match int_of(get_spec(m, "id"@)) {
                Some(i) => i,
                None => 0,
            }),
            out@ == items@.take(i as int).filter_map(g).map_values(h),
        decreases n - i,
    {
        proof {
            items@.lemma_filter_map_take_succ(g, i as int);
        }
        let m = &items[i];
        let ghost before = out@;
        if text(m.get("title")).is_some() {
            let id = match integer(m.get("id")) {
                Some(x) => x,
                None => 0,
            };
            out.push(id);
            assert(out@ =~= items@.take(i + 1).filter_map(g).map_values(h));
        } else {
            assert(out@ =~= items@.take(i + 1).filter_map(g).map_values(h));
        }
        i = i + 1;
    }
    assert(items@.take(n as int) =~= first_n(items@, 5));
    out
}

/// The credits fetched for the `k`-th titled film; an empty node when missing.
pub open spec fn credit_at(credits: Seq<Value>, k: int) -> Value {
    if 0 <= k < credits.len() {
        credits[k]
    } else {
        Value::Null
    }
}

/// The directors of a film's credits.
pub fn directors(credits: &Value) -> (r: Vec<String>)
    ensures
        views(r@) == tmdb_directors(*credits),
{
    let items = elements(credits.get("crew"));
    let ghost f = |m: Value| if at(Some(m), "job"@) matches Some(j) && str_of(j) == Some("Director"@) {
        text_of(get_spec(m, "name"@))
    } else {
        None
    };
    let mut out: Vec<String> = Vec::new();
    let mut i: usize = 0;
    while i < items.len()
        invariant
            i <= items@.len(),
            items@ == elems(get_spec(*credits, "crew"@)),
            f == (|m: Value| if at(Some(m), "job"@) matches Some(j) && str_of(j) == Some("Director"@) {
                text_of(get_spec(m, "name"@))
            } else {
                None
            }),
            views(out@) == items@.take(i as int).filter_map(f),
        decreases items@.len() - i,
    {
        proof {
            items@.lemma_filter_map_take_succ(f, i as int);
        }
        let m = &items[i];
        let is_director = match m.get("job") {
            Some(j) => match j.as_str() {
                Some(t) => str_eq(t.as_str(), "Director"),
                None => false,
            },
            None => false,
        };
        let ghost before = out@;
        if is_director {
            match text(m.get("name")) {
                Some(t) => {
                    out.push(t);
                    assert(views(out@) =~= views(before) + seq![out@.last()@]);
                },
                None => {},
            }
        }
        i = i + 1;
    }
    assert(items@.take(items@.len() as int) =~= items@);
    out
}

/// The first four actors of a film's credits.
pub fn leading_actors(credits: &Value) -> (r: Vec<String>)
    ensures
        views(r@) == first_n(elems(get_spec(*credits, "cast"@)), 4).filter_map(|m: Value| text_of(get_spec(m, "name"@))),
{
    let items = elements(credits.get("cast"));
    let n: usize = if items.len() < 4 { items.len() } else { 4 };
    let ghost f = |m: Value| text_of(get_spec(m, "name"@));
    let mut out: Vec<String> = Vec::new();
    let mut i: usize = 0;
    while i < n
        invariant
            n <= items@.len(),
            n <= 4,
            i <= n,
            items@ == elems(get_spec(*credits, "cast"@)),
            f == (|m: Value| text_of(get_spec(m, "name"@))),
            views(out@) == items@.take(i as int).filter_map(f),
        decreases n - i,
    {
        proof {
            items@.lemma_filter_map_take_succ(f, i as int);
        }
        let ghost before = out@;
        match text(items[i].get("name")) {
            Some(t) => {
                out.push(t);
                assert(views(out@) =~= views(before) + seq![out@.last()@]);
            },
            None => {},
        }
        i = i + 1;
    }
    assert(items@.take(n as int) =~= first_n(items@, 4));
    out
}

/// The first genre of a film that has a French label.
pub fn film_genre(movie: &Value) -> (r: Option<String>)
    ensures
        opt_view(r) == find_map(
            elems(get_spec(*movie, "genre_ids"@)),
            |x: Value| match as_i64_spec(x) {
                Some(id) => tmdb_genre_spec(id),
                None => None,
            },
        ),
{
    let items = elements(movie.get("genre_ids"));
    let ghost f = |x: Value| match as_i64_spec(x) {
        Some(id) => tmdb_genre_spec(id),
        None => None,
    };
    let mut i: usize = 0;
    assert(items@.skip(0) =~= items@);
    while i < items.len()
        invariant
            i <= items@.len(),
            items@ == elems(get_spec(*movie, "genre_ids"@)),
            f == (|x: Value| match as_i64_spec(x) {
                Some(id) => tmdb_genre_spec(id),
                None => None,
            }),
            find_map(items@, f) == find_map(items@.skip(i as int), f),
        decreases items@.len() - i,
    {
        let ghost rest = items@.skip(i as int);
        assert(rest.drop_first() =~= items@.skip(i + 1));
        assert(rest[0] == items@[i as int]);
        match items[i].as_i64() {
            Some(id) => match tmdb_genre(id) {
                Some(g) => {
                    return Some(owned(g));
                },
                None => {},
            },
            None => {},
        }
        i = i + 1;
    }
    None
}

/// A titled film of a TMDB answer with its credits.
pub fn tmdb_film(movie: &Value, credits: &Value) -> (c: Candidate)
    ensures
        c@ == tmdb_movie(*movie, *credits),
{
    let cover_url = match text(movie.get("poster_path")) {
        Some(p) => {
            let mut u = owned("https://image.tmdb.org/t/p/w500");
            u.append(p.as_str());
            Some(u)
        },
        None => None,
    };
    let c = Candidate {
        source: owned("TMDB"),
        titre: text(movie.get("title")),
        auteurs: directors(credits),
        illustrateurs: Vec::new(),
        editeur: None,
        date_parution: text(movie.get("release_date")),
        ean: None,
        synopsis: text(movie.get("overview")),
        cover_url,
        score: integer(movie.get("vote_count")),
        genre: film_genre(movie),
        acteurs: leading_actors(credits),
    };
    assert(c@.illustrateurs =~= Seq::<Seq<char>>::empty());
    c
}

/// The candidates of a TMDB search answer: the titled films among the first
/// five results, each with the credits fetched for it (in the order of
/// `tmdb_credit_ids`).
pub fn tmdb_candidates(resp: &Value, credits: &[Value]) -> (r: Vec<Candidate>)
    ensures
        r@.len() == tmdb_titled(*resp).len(),
        forall|k: int| 0 <= k < r@.len() ==> (#[trigger] r@[k])@ == tmdb_movie(tmdb_titled(*resp)[k], credit_at(credits@, k)),
{
    let items = elements(resp.get("results"));
    let n: usize = if items.len() < 5 { items.len() } else { 5 };
    let ghost g = |m: Value| if text_of(get_spec(m, "title"@)) is Some { Some(m) } else { None };
    let mut out: Vec<Candidate> = Vec::new();
    let mut i: usize = 0;
    while i < n
        invariant
            n <= items@.len(),
            n <= 5,
            i <= n,
            items@ == elems(get_spec(*resp, "results"@)),
            g == (|m: Value| if text_of(get_spec(m, "title"@)) is Some { Some(m) } else { None }),
            out@.len() == items@.take(i as int).filter_map(g).len(),
            forall|k: int| 0 <= k < out@.len() ==> (#[trigger] out@[k])@ == tmdb_movie(items@.take(i as int).filter_map(g)[k], credit_at(credits@, k)),
        decreases n - i,
    {
        proof {
            items@.lemma_filter_map_take_succ(g, i as int);
        }
        let m = &items[i];
        let ghost before = out@;
        if text(m.get("title")).is_some() {
            let k = out.len();
            let c = if k < credits.len() {
                tmdb_film(m, &credits[k])
            } else {
                tmdb_film(m, &Value::Null)
            };
            out.push(c);
            assert(items@.take(i + 1).filter_map(g) == items@.take(i as int).filter_map(g) + seq![*m]);
            assert forall|q: int| 0 <= q < out@.len() implies (#[trigger] out@[q])@ == tmdb_movie(items@.take(i + 1).filter_map(g)[q], credit_at(credits@, q)) by {
                if q < k {
                    assert(out@[q] == before[q]);
                }
            }
        }
        i = i + 1;
    }
    assert(items@.take(n as int) =~= first_n(items@, 5));
    out
}

pub open spec fn is_ascii_char(c: char) -> bool {
    (c as u32) < 128
}

/// The year at the start of a date: its first four bytes, when they are
/// four ASCII characters that read as an integer (`d.get(..4)` parsed).
pub open spec fn year4(d: Seq<char>) -> Option<i64> {
    if d.len() >= 4 && (forall|i: int| 0 <= i < 4 ==> is_ascii_char(#[trigger] d[i])) {
        crate::text::parse_i64_spec(d.take(4))
    } else {
        None
    }
}

pub fn year_prefix(d: &str) -> (r: Option<i64>)
    ensures
        r == year4(d@),
{
    let cs = chars_of(d);
    if cs.len() < 4 {
        return None;
    }
    let mut i: usize = 0;
    while i < 4
        invariant
            i <= 4,
            cs@.len() >= 4,
            cs@ == d@,
            forall|j: int| 0 <= j < i ==> is_ascii_char(#[trigger] cs@[j]),
        decreases 4 - i,
    {
        if (cs[i] as u32) >= 128 {
            assert(!is_ascii_char(cs@[i as int]));
            return None;
        }
        i = i + 1;
    }
    let head = span(&cs, 0, 4);
    assert(head@ =~= d@.take(4));
    crate::text::parse_i64(string_of(&head).as_str())
}

/// The DVD matching rule: exact (normalised) title, and a year within one
/// of the record's when it has one.
pub open spec fn tmdb_strict_match(c: CandidateV, titre: Seq<char>, annee: Option<i64>) -> bool {
    let titre_ok = c.titre matches Some(t) && same_thing_spec(t, titre);
    let annee_ok = match (annee, c.date_parution) {
        (Some(a), Some(d)) => year4(d) matches Some(y) && -1 <= y - a <= 1,
        (Some(_), None) => false,
        (None, _) => true,
    };
    titre_ok && annee_ok
}

/// Keeps the films whose title and year match the record.
pub fn keep_matching_films(candidates: Vec<Candidate>, titre: &str, annee: Option<i64>) -> (r: Vec<Candidate>)
    ensures
        cands(r@) == cands(candidates@).filter(|c: CandidateV| tmdb_strict_match(c, titre@, annee)),
{
    let ghost p = |c: CandidateV| tmdb_strict_match(c, titre@, annee);
    let ghost all = candidates@;
    let mut out: Vec<Candidate> = Vec::new();
    for c in it: candidates
        invariant
            it.seq() == all,
            p == (|c: CandidateV| tmdb_strict_match(c, titre@, annee)),
            cands(out@) == cands(all.take(it.index() as int)).filter(p),
    {
        let ghost k = it.index() as int;
        assert(cands(all.take(k + 1)) =~= cands(all.take(k)).push(c@));
        proof {
            cands(all.take(k)).lemma_filter_push(c@, p);
        }
        let titre_ok = match &c.titre {
            Some(t) => same_thing(t.as_str(), titre),
            None => false,
        };
        let annee_ok = match (annee, &c.date_parution) {
            (Some(a), Some(d)) => match year_prefix(d.as_str()) {
                Some(y) => {
                    let diff: i128 = (y as i128) - (a as i128);
                    -1 <= diff && diff <= 1
                },
                None => false,
            },
            (Some(_), None) => false,
            (None, _) => true,
        };
        let ghost before = out@;
        if titre_ok && annee_ok {
            out.push(c);
            assert(cands(out@) =~= cands(before).push(out@.last()@));
        }
    }
    assert(all.take(all.len() as int) =~= all);
    out
}

// ---------------------------------------------------------------------------
// Google Books
// ---------------------------------------------------------------------------

/// The Google Books query: `isbn:` and the code for a barcode.
pub fn google_books_query(query: &str, barcode: bool) -> (r: String)
    ensures
        r@ == (if barcode { "isbn:"@ + query@ } else { query@ }),
{
    if barcode {
        let mut out = owned("isbn:");
        out.append(query);
        out
    } else {
        owned(query)
    }
}

/// The first identifier of the given type.
pub open spec fn identifier_of(ids: Seq<Value>, kind: Seq<char>) -> Option<Value> {
    find_map(ids, |x: Value| if at(Some(x), "type"@) matches Some(t) && str_of(t) == Some(kind) { Some(x) } else { None })
}

/// The ISBN-13 of a volume, else its ISBN-10.
pub open spec fn gb_ean(info: Option<Value>) -> Option<Seq<char>> {
    let ids = elems(at(info, "industryIdentifiers"@));
    let found = match identifier_of(ids, "ISBN_13"@) {
        Some(x) => Some(x),
        None => identifier_of(ids, "ISBN_10"@),
    };
    match found {
        Some(x) => text_of(get_spec(x, "identifier"@)),
        None => None,
    }
}

/// A Google Books volume as a candidate; none without a title.
pub open spec fn gb_volume(item: Value) -> Option<CandidateV> {
    let info = get_spec(item, "volumeInfo"@);
    match text_of(at(info, "title"@)) {
        Some(titre) => Some(
            CandidateV {
                source: "Google Books"@,
                titre: Some(titre),
                auteurs: texts_at(at(info, "authors"@), None),
                illustrateurs: Seq::empty(),
                editeur: text_of(at(info, "publisher"@)),
                date_parution: text_of(at(info, "publishedDate"@)),
                ean: gb_ean(info),
                synopsis: text_of(at(info, "description"@)),
                cover_url: match text_of(at(at(info, "imageLinks"@), "thumbnail"@)) {
                    Some(u) => Some(replace_all(u, "http://"@, "https://"@)),
                    None => None,
                },
                score: None,
                genre: None,
                acteurs: Seq::empty(),
            },
        ),
        None => None,
    }
}

/// An identifier entry of the given type (`{"type": kind, ...}`).
pub open spec fn has_type(x: Value, kind: Seq<char>) -> bool {
    get_spec(x, "type"@) matches Some(t) && str_of(t) == Some(kind)
}

/// The identifier of the first entry of a type is found at that entry.
proof fn lemma_identifier_at(ids: Seq<Value>, kind: Seq<char>, k: int)
    requires
        0 <= k < ids.len(),
        has_type(ids[k], kind),
        forall|j: int| 0 <= j < k ==> !has_type(#[trigger] ids[j], kind),
    ensures
        identifier_of(ids, kind) == Some(ids[k]),
    decreases k,
{
    if k > 0 {
        let rest = ids.drop_first();
        assert forall|j: int| 0 <= j < k - 1 implies !has_type(#[trigger] rest[j], kind) by {
            assert(rest[j] == ids[j + 1]);
        }
        assert(rest[k - 1] == ids[k]);
        assert(!has_type(ids[0], kind));
        lemma_identifier_at(rest, kind, k - 1);
    }
}

/// No entry of a type: no identifier of it.
proof fn lemma_identifier_none(ids: Seq<Value>, kind: Seq<char>)
    requires
        forall|j: int| 0 <= j < ids.len() ==> !has_type(#[trigger] ids[j], kind),
    ensures
        identifier_of(ids, kind) is None,
    decreases ids.len(),
{
    if ids.len() > 0 {
        let rest = ids.drop_first();
        assert forall|j: int| 0 <= j < rest.len() implies !has_type(#[trigger] rest[j], kind) by {
            assert(rest[j] == ids[j + 1]);
        }
        assert(!has_type(ids[0], kind));
        lemma_identifier_none(rest, kind);
    }
}

/// Law (a Google Books volume is known by its ISBN-13): a titled volume
/// whose `industryIdentifiers` list an `ISBN_13` entry gives as its code
/// the `identifier` of the first such entry, wherever an `ISBN_10` stands.
pub proof fn law_google_books_isbn13_first(item: Value, ids: Seq<Value>, k: int)
    requires
        ids == elems(at(get_spec(item, "volumeInfo"@), "industryIdentifiers"@)),
        text_of(at(get_spec(item, "volumeInfo"@), "title"@)) is Some,
        0 <= k < ids.len(),
        has_type(ids[k], "ISBN_13"@),
        forall|j: int| 0 <= j < k ==> !has_type(#[trigger] ids[j], "ISBN_13"@),
    ensures
        gb_volume(item) matches Some(c) && c.ean == text_of(get_spec(ids[k], "identifier"@)),
{
    lemma_identifier_at(ids, "ISBN_13"@, k);
}

/// Law (the ISBN-10 of a volume only stands in for a missing ISBN-13): a
/// titled volume with no `ISBN_13` entry gives as its code the
/// `identifier` of its first `ISBN_10` entry.
pub proof fn law_google_books_isbn10_fallback(item: Value, ids: Seq<Value>, k: int)
    requires
        ids == elems(at(get_spec(item, "volumeInfo"@), "industryIdentifiers"@)),
        text_of(at(get_spec(item, "volumeInfo"@), "title"@)) is Some,
        forall|j: int| 0 <= j < ids.len() ==> !has_type(#[trigger] ids[j], "ISBN_13"@),
        0 <= k < ids.len(),
        has_type(ids[k], "ISBN_10"@),
        forall|j: int| 0 <= j < k ==> !has_type(#[trigger] ids[j], "ISBN_10"@),
    ensures
        gb_volume(item) matches Some(c) && c.ean == text_of(get_spec(ids[k], "identifier"@)),
{
    lemma_identifier_none(ids, "ISBN_13"@);
    lemma_identifier_at(ids, "ISBN_10"@, k);
}

pub open spec fn gb_volume_fn() -> spec_fn(Value) -> Option<CandidateV> {
    |x: Value| gb_volume(x)
}

/// The first identifier of the given type.
pub fn find_identifier<'a>(ids: &'a [Value], kind: &str) -> (r: Option<&'a Value>)
    ensures
        deref_opt(r) == identifier_of(ids@, kind@),
{
    let ghost f = |x: Value| if at(Some(x), "type"@) matches Some(t) && str_of(t) == Some(kind@) { Some(x) } else { None };
    let mut i: usize = 0;
    assert(ids@.skip(0) =~= ids@);
    while i < ids.len()
        invariant
            i <= ids@.len(),
            f == (|x: Value| if at(Some(x), "type"@) matches Some(t) && str_of(t) == Some(kind@) { Some(x) } else { None }),
            find_map(ids@, f) == find_map(ids@.skip(i as int), f),
        decreases ids@.len() - i,
    {
        let ghost rest = ids@.skip(i as int);
        assert(rest.drop_first() =~= ids@.skip(i + 1));
        assert(rest[0] == ids@[i as int]);
        let hit = match ids[i].get("type") {
            Some(t) => match t.as_str() {
                Some(x) => str_eq(x.as_str(), kind),
                None => false,
            },
            None => false,
        };
        if hit {
            return Some(&ids[i]);
        }
        i = i + 1;
    }
    None
}

/// One item of a Google Books answer.
pub fn google_books_volume(item: &Value) -> (c: Option<Candidate>)
    ensures
        match c {
            Some(c) => gb_volume(*item) == Some(c@),
            None => gb_volume(*item).is_none(),
        },
{
    let info = item.get("volumeInfo");
    let titre = match text(node(info, "title")) {
        Some(t) => t,
        None => return None,
    };
    let ids = elements(node(info, "industryIdentifiers"));
    let found = match find_identifier(ids, "ISBN_13") {
        Some(x) => Some(x),
        None => find_identifier(ids, "ISBN_10"),
    };
    let ean = match found {
        Some(x) => text(x.get("identifier")),
        None => None,
    };
    let cover_url = match text(node(node(info, "imageLinks"), "thumbnail")) {
        Some(u) => {
            let http = chars_of("http://");
            let https = chars_of("https://");
            proof {
                reveal_strlit("http://");
            }
            let uc = chars_of(u.as_str());
            Some(string_of(&replace(&uc, &http, &https)))
        },
        None => None,
    };
    let c = Candidate {
        source: owned("Google Books"),
        titre: Some(titre),
        auteurs: texts(node(info, "authors"), None),
        illustrateurs: Vec::new(),
        editeur: text(node(info, "publisher")),
        date_parution: text(node(info, "publishedDate")),
        ean,
        synopsis: text(node(info, "description")),
        cover_url,
        score: None,
        genre: None,
        acteurs: Vec::new(),
    };
    assert(c@.illustrateurs =~= Seq::<Seq<char>>::empty());
    assert(c@.acteurs =~= Seq::<Seq<char>>::empty());
    Some(c)
}

/// The candidates of a Google Books answer.
pub fn google_books_candidates(resp: &Value) -> (r: Vec<Candidate>)
    ensures
        cands(r@) == elems(get_spec(*resp, "items"@)).filter_map(gb_volume_fn()),
{
    let items = elements(resp.get("items"));
    let mut out: Vec<Candidate> = Vec::new();
    let mut i: usize = 0;
    while i < items.len()
        invariant
            i <= items@.len(),
            items@ == elems(get_spec(*resp, "items"@)),
            cands(out@) == items@.take(i as int).filter_map(gb_volume_fn()),
        decreases items@.len() - i,
    {
        proof {
            items@.lemma_filter_map_take_succ(gb_volume_fn(), i as int);
        }
        let ghost before = out@;
        match google_books_volume(&items[i]) {
            Some(c) => {
                out.push(c);
                assert(cands(out@) =~= cands(before) + seq![out@.last()@]);
            },
            None => {},
        }
        i = i + 1;
    }
    assert(items@.take(items@.len() as int) =~= items@);
    out
}

// ---------------------------------------------------------------------------
// OpenLibrary
// ---------------------------------------------------------------------------

/// The OpenLibrary key of an ISBN.
pub fn openlibrary_key(query: &str) -> (r: String)
    ensures
        r@ == "ISBN:"@ + query@,
{
    let mut out = owned("ISBN:");
    out.append(query);
    out
}

/// The book of an OpenLibrary ISBN answer, as a candidate.
pub open spec fn ol_book(book: Value, query: Seq<char>) -> CandidateV {
    let publishers = texts_at(get_spec(book, "publishers"@), Some("name"@));
    CandidateV {
        source: "OpenLibrary"@,
        titre: text_of(get_spec(book, "title"@)),
        auteurs: texts_at(get_spec(book, "authors"@), Some("name"@)),
        illustrateurs: Seq::empty(),
        editeur: if publishers.len() > 0 { Some(publishers[0]) } else { None },
        date_parution: text_of(get_spec(book, "publish_date"@)),
        ean: Some(query),
        synopsis: None,
        cover_url: match text_of(at(get_spec(book, "cover"@), "large"@)) {
            Some(u) => Some(u),
            None => text_of(at(get_spec(book, "cover"@), "medium"@)),
        },
        score: None,
        genre: None,
        acteurs: Seq::empty(),
    }
}

/// The answer to an ISBN lookup: the book filed under `ISBN:<query>`, if any.
pub fn openlibrary_isbn_candidates(resp: &Value, query: &str) -> (r: Vec<Candidate>)
    ensures
        cands(r@) == match get_spec(*resp, "ISBN:"@ + query@) {
            Some(book) => seq![ol_book(book, query@)],
            None => Seq::<CandidateV>::empty(),
        },
{
    let key = openlibrary_key(query);
    let book = match resp.get(key.as_str()) {
        Some(b) => b,
        None => {
            let out: Vec<Candidate> = Vec::new();
            assert(cands(out@) =~= Seq::<CandidateV>::empty());
            return out;
        },
    };
    let publishers = texts(book.get("publishers"), Some("name"));
    let editeur = if publishers.len() > 0 { Some(publishers[0].clone()) } else { None };
    let cover_url = match text(node(book.get("cover"), "large")) {
        Some(u) => Some(u),
        None => text(node(book.get("cover"), "medium")),
    };
    let c = Candidate {
        source: owned("OpenLibrary"),
        titre: text(book.get("title")),
        auteurs: texts(book.get("authors"), Some("name")),
        illustrateurs: Vec::new(),
        editeur,
        date_parution: text(book.get("publish_date")),
        ean: Some(owned(query)),
        synopsis: None,
        cover_url,
        score: None,
        genre: None,
        acteurs: Vec::new(),
    };
    assert(c@.illustrateurs =~= Seq::<Seq<char>>::empty());
    assert(c@.acteurs =~= Seq::<Seq<char>>::empty());
    assert(c@ == ol_book(*book, query@));
    let mut out: Vec<Candidate> = Vec::new();
    out.push(c);
    assert(cands(out@) =~= seq![ol_book(*book, query@)]);
    out
}

/// The first ISBN of 13 bytes of a search document.
pub open spec fn ol_isbn13(doc: Value) -> Option<Seq<char>> {
    find_map(
        elems(get_spec(doc, "isbn"@)),
        |x: Value| match text_of(Some(x)) {
            Some(t) => if encode_utf8(t).len() == 13 { Some(t) } else { None },
            None => None,
        },
    )
}

/// An OpenLibrary search document as a candidate; none without a title.
pub open spec fn ol_doc(doc: Value) -> Option<CandidateV> {
    match text_of(get_spec(doc, "title"@)) {
        Some(titre) => Some(
            CandidateV {
                source: "OpenLibrary"@,
                titre: Some(titre),
                auteurs: texts_at(get_spec(doc, "author_name"@), None),
                illustrateurs: Seq::empty(),
                editeur: text_of(first_elem(get_spec(doc, "publisher"@))),
                date_parution: match int_of(get_spec(doc, "first_publish_year"@)) {
                    Some(y) => Some(decimal_int(y as int)),
                    None => None,
                },
                ean: ol_isbn13(doc),
                synopsis: None,
                cover_url: match int_of(get_spec(doc, "cover_i"@)) {
                    Some(id) => Some("https://covers.openlibrary.org/b/id/"@ + decimal_int(id as int) + "-L.jpg"@),
                    None => None,
                },
                score: None,
                genre: None,
                acteurs: Seq::empty(),
            },
        ),
        None => None,
    }
}

pub open spec fn ol_doc_fn() -> spec_fn(Value) -> Option<CandidateV> {
    |x: Value| ol_doc(x)
}

/// The first ISBN of 13 bytes of a search document.
pub fn isbn13(doc: &Value) -> (r: Option<String>)
    ensures
        opt_view(r) == ol_isbn13(*doc),
{
    let items = elements(doc.get("isbn"));
    let ghost f = |x: Value| match text_of(Some(x)) {
        Some(t) => if encode_utf8(t).len() == 13 { Some(t) } else { None },
        None => None,
    };
    let mut i: usize = 0;
    assert(items@.skip(0) =~= items@);
    while i < items.len()
        invariant
            i <= items@.len(),
            items@ == elems(get_spec(*doc, "isbn"@)),
            f == (|x: Value| match text_of(Some(x)) {
                Some(t) => if encode_utf8(t).len() == 13 { Some(t) } else { None },
                None => None,
            }),
            find_map(items@, f) == find_map(items@.skip(i as int), f),
        decreases items@.len() - i,
    {
        let ghost rest = items@.skip(i as int);
        assert(rest.drop_first() =~= items@.skip(i + 1));
        assert(rest[0] == items@[i as int]);
        match text(Some(&items[i])) {
            Some(t) => {
                let tc = chars_of(t.as_str());
                if !utf8_len_exceeds(&tc, 13) && utf8_len_exceeds(&tc, 12) {
                    return Some(t);
                }
            },
            None => {},
        }
        i = i + 1;
    }
    None
}

/// One document of an OpenLibrary search answer.
pub fn openlibrary_doc(doc: &Value) -> (c: Option<Candidate>)
    ensures
        match c {
            Some(c) => ol_doc(*doc) == Some(c@),
            None => ol_doc(*doc).is_none(),
        },
{
    let titre = match text(doc.get("title")) {
        Some(t) => t,
        None => return None,
    };
    let date_parution = match integer(doc.get("first_publish_year")) {
        Some(y) => Some(format_i64(y)),
        None => None,
    };
    let cover_url = match integer(doc.get("cover_i")) {
        Some(id) => {
            let n = format_i64(id);
            Some(concat3("https://covers.openlibrary.org/b/id/", n.as_str(), "-L.jpg"))
        },
        None => None,
    };
    let c = Candidate {
        source: owned("OpenLibrary"),
        titre: Some(titre),
        auteurs: texts(doc.get("author_name"), None),
        illustrateurs: Vec::new(),
        editeur: text(first_element(doc.get("publisher"))),
        date_parution,
        ean: isbn13(doc),
        synopsis: None,
        cover_url,
        score: None,
        genre: None,
        acteurs: Vec::new(),
    };
    assert(c@.illustrateurs =~= Seq::<Seq<char>>::empty());
    assert(c@.acteurs =~= Seq::<Seq<char>>::empty());
    Some(c)
}

/// The candidates of an OpenLibrary search answer.
pub fn openlibrary_search_candidates(resp: &Value) -> (r: Vec<Candidate>)
    ensures
        cands(r@) == elems(get_spec(*resp, "docs"@)).filter_map(ol_doc_fn()),
{
    let items = elements(resp.get("docs"));
    let mut out: Vec<Candidate> = Vec::new();
    let mut i: usize = 0;
    while i < items.len()
        invariant
            i <= items@.len(),
            items@ == elems(get_spec(*resp, "docs"@)),
            cands(out@) == items@.take(i as int).filter_map(ol_doc_fn()),
        decreases items@.len() - i,
    {
        proof {
            items@.lemma_filter_map_take_succ(ol_doc_fn(), i as int);
        }
        let ghost before = out@;
        match openlibrary_doc(&items[i]) {
            Some(c) => {
                out.push(c);
                assert(cands(out@) =~= cands(before) + seq![out@.last()@]);
            },
            None => {},
        }
        i = i + 1;
    }
    assert(items@.take(items@.len() as int) =~= items@);
    out
}

// ---------------------------------------------------------------------------
// BNF (SRU, Dublin Core): the reference for French publications
// ---------------------------------------------------------------------------

/// The CQL query sent to the BNF: by ISBN for a barcode, else by title
/// (double quotes removed from the title).
pub open spec fn bnf_cql_spec(query: Seq<char>, barcode: bool) -> Seq<char> {
    if barcode {
        "bib.isbn all \""@ + query + seq!['"']
    } else {
        "bib.title all \""@ + without_chars(query, '"', '"') + seq!['"']
    }
}

pub fn bnf_cql(query: &str, barcode: bool) -> (r: String)
    ensures
        r@ == bnf_cql_spec(query@, barcode),
{
    if barcode {
        let mut out = owned("bib.isbn all \"");
        out.append(query);
        push_char(&mut out, '"');
        out
    } else {
        let qc = chars_of(query);
        let cleaned = remove_chars(&qc, '"', '"');
        let mut out = owned("bib.title all \"");
        out.append(string_of(&cleaned).as_str());
        push_char(&mut out, '"');
        out
    }
}

/// The MusicBrainz query of the strict CD match: release and artist fields
/// (double quotes removed), official releases only.
pub fn musicbrainz_strict_query(artiste: &str, titre: &str) -> (r: String)
    ensures
        r@ == "release:\""@ + without_chars(titre@, '"', '"') + "\" AND artist:\""@ + without_chars(artiste@, '"', '"')
            + "\" AND status:official"@,
{
    let t = remove_chars(&chars_of(titre), '"', '"');
    let a = remove_chars(&chars_of(artiste), '"', '"');
    let mut out = owned("release:\"");
    out.append(string_of(&t).as_str());
    out.append("\" AND artist:\"");
    out.append(string_of(&a).as_str());
    out.append("\" AND status:official");
    out
}

/// The records of an SRU answer: what follows each `<srw:recordData>`, up
/// to its closing tag.
pub open spec fn bnf_records(xml: Seq<char>) -> Seq<Seq<char>> {
    split_spec(xml, "<srw:recordData>"@).drop_first().map_values(|r: Seq<char>| before_first(r, "</srw:recordData>"@))
}

pub open spec fn dc(record: Seq<char>, tag: Seq<char>) -> Seq<Seq<char>> {
    tags_in(record, open_tag(tag), close_tag(tag))
}

/// The ARK of a record, from the first identifier holding `ark:/`.
pub open spec fn bnf_ark(ids: Seq<Seq<char>>) -> Option<Seq<char>> {
    find_map(
        ids,
        |i: Seq<char>| match find_spec(i, "ark:/"@, 0) {
            Some(p) => Some(trim_end_char(i.subrange(p, i.len() as int), '/')),
            None => None,
        },
    )
}

/// The digits of an identifier `ISBN …` (dashes removed, trimmed).
pub open spec fn isbn_digits(i: Seq<char>) -> Option<Seq<char>> {
    if starts(i, "ISBN "@) {
        Some(trim_spec(without_chars(i.subrange("ISBN "@.len() as int, i.len() as int), '-', '-')))
    } else {
        None
    }
}

/// The EAN of a record: the first `ISBN …` identifier that is a barcode.
pub open spec fn bnf_ean(ids: Seq<Seq<char>>) -> Option<Seq<char>> {
    find_map(
        ids,
        |i: Seq<char>| match isbn_digits(i) {
            Some(x) => if is_barcode(x) { Some(x) } else { None },
            None => None,
        },
    )
}

/// Whether a contributor heading names an illustrator.
pub open spec fn is_illustrator(c: Seq<char>) -> bool {
    contains_seq(c, "Illustrateur"@) || contains_seq(c, "Dessinateur"@)
}

/// A Dublin Core record as a candidate; none without a title.
pub open spec fn bnf_record(record: Seq<char>, query: Seq<char>, barcode: bool) -> Option<CandidateV> {
    let titles = dc(record, "dc:title"@);
    if titles.len() == 0 {
        None
    } else {
        let ids = dc(record, "dc:identifier"@);
        let publishers = dc(record, "dc:publisher"@);
        let dates = dc(record, "dc:date"@);
        Some(
            CandidateV {
                source: "BNF"@,
                titre: Some(trim_spec(before_first(titles[0], seq![' ', '/', ' ']))),
                auteurs: dc(record, "dc:creator"@).map_values(|c: Seq<char>| clean_bnf_name_spec(c)),
                illustrateurs: dc(record, "dc:contributor"@).filter_map(
                    |c: Seq<char>| if is_illustrator(c) { Some(clean_bnf_name_spec(c)) } else { None },
                ),
                editeur: if publishers.len() > 0 {
                    Some(trim_spec(before_first(publishers[0], seq![' ', '('])))
                } else {
                    None
                },
                date_parution: if dates.len() > 0 { Some(dates[0]) } else { None },
                ean: match bnf_ean(ids) {
                    Some(e) => Some(e),
                    None => if barcode { Some(query) } else { None },
                },
                synopsis: None,
                cover_url: match bnf_ark(ids) {
                    Some(a) => Some("https://catalogue.bnf.fr/couverture?appName=NE&idArk="@ + a + "&couverture=1"@),
                    None => None,
                },
                score: None,
                genre: None,
                acteurs: Seq::empty(),
            },
        )
    }
}

pub open spec fn bnf_record_fn(query: Seq<char>, barcode: bool) -> spec_fn(Seq<char>) -> Option<CandidateV> {
    |r: Seq<char>| bnf_record(r, query, barcode)
}

/// The ARK of a record.
pub fn ark_of(ids: &Vec<String>) -> (r: Option<String>)
    ensures
        opt_view(r) == bnf_ark(views(ids@)),
{
    let ghost f = |i: Seq<char>| match find_spec(i, "ark:/"@, 0) {
        Some(p) => Some(trim_end_char(i.subrange(p, i.len() as int), '/')),
        None => None,
    };
    let mark = chars_of("ark:/");
    let mut k: usize = 0;
    assert(views(ids@).skip(0) =~= views(ids@));
    while k < ids.len()
        invariant
            k <= ids@.len(),
            mark@ == "ark:/"@,
            f == (|i: Seq<char>| match find_spec(i, "ark:/"@, 0) {
                Some(p) => Some(trim_end_char(i.subrange(p, i.len() as int), '/')),
                None => None,
            }),
            find_map(views(ids@), f) == find_map(views(ids@).skip(k as int), f),
        decreases ids@.len() - k,
    {
        let ghost rest = views(ids@).skip(k as int);
        assert(rest.drop_first() =~= views(ids@).skip(k + 1));
        assert(rest[0] == ids@[k as int]@);
        let ic = chars_of(ids[k].as_str());
        match find(&ic, &mark, 0) {
            Some(p) => {
                let tail = span(&ic, p, ic.len());
                let a = trim_end_chars(&tail, '/');
                return Some(string_of(&a));
            },
            None => {},
        }
        k = k + 1;
    }
    None
}

/// The EAN of a record.
pub fn ean_of(ids: &Vec<String>) -> (r: Option<String>)
    ensures
        opt_view(r) == bnf_ean(views(ids@)),
{
    let ghost f = |i: Seq<char>| match isbn_digits(i) {
        Some(x) => if is_barcode(x) { Some(x) } else { None },
        None => None,
    };
    let prefix = chars_of("ISBN ");
    let mut k: usize = 0;
    assert(views(ids@).skip(0) =~= views(ids@));
    while k < ids.len()
        invariant
            k <= ids@.len(),
            prefix@ == "ISBN "@,
            f == (|i: Seq<char>| match isbn_digits(i) {
                Some(x) => if is_barcode(x) { Some(x) } else { None },
                None => None,
            }),
            find_map(views(ids@), f) == find_map(views(ids@).skip(k as int), f),
        decreases ids@.len() - k,
    {
        let ghost rest = views(ids@).skip(k as int);
        assert(rest.drop_first() =~= views(ids@).skip(k + 1));
        assert(rest[0] == ids@[k as int]@);
        let ic = chars_of(ids[k].as_str());
        if starts_with(&ic, &prefix) {
            let tail = span(&ic, prefix.len(), ic.len());
            let digits = trim_chars(&remove_chars(&tail, '-', '-'));
            let text = string_of(&digits);
            if looks_like_barcode(text.as_str()) {
                return Some(text);
            }
        }
        k = k + 1;
    }
    None
}

/// Cleans every heading.
fn clean_all(raw: &Vec<String>) -> (r: Vec<String>)
    ensures
        views(r@) == views(raw@).map_values(|c: Seq<char>| clean_bnf_name_spec(c)),
{
    let mut out: Vec<String> = Vec::new();
    let mut i: usize = 0;
    while i < raw.len()
        invariant
            i <= raw@.len(),
            views(out@) == views(raw@.take(i as int)).map_values(|c: Seq<char>| clean_bnf_name_spec(c)),
        decreases raw@.len() - i,
    {
        let ghost before = out@;
        let c = clean_bnf_name(raw[i].as_str());
        out.push(c);
        assert(views(raw@.take(i + 1)) =~= views(raw@.take(i as int)).push(raw@[i as int]@));
        assert(views(out@) =~= views(before).push(c@));
        assert(views(out@) =~= views(raw@.take(i + 1)).map_values(|c: Seq<char>| clean_bnf_name_spec(c)));
        i = i + 1;
    }
    assert(raw@.take(raw@.len() as int) =~= raw@);
    out
}

/// Cleans the headings of illustrators.
fn illustrators(raw: &Vec<String>) -> (r: Vec<String>)
    ensures
        views(r@) == views(raw@).filter_map(
            |c: Seq<char>| if is_illustrator(c) { Some(clean_bnf_name_spec(c)) } else { None },
        ),
{
    let ghost f = |c: Seq<char>| if is_illustrator(c) { Some(clean_bnf_name_spec(c)) } else { None };
    let ill = chars_of("Illustrateur");
    let des = chars_of("Dessinateur");
    let mut out: Vec<String> = Vec::new();
    let mut i: usize = 0;
    while i < raw.len()
        invariant
            i <= raw@.len(),
            ill@ == "Illustrateur"@,
            des@ == "Dessinateur"@,
            f == (|c: Seq<char>| if is_illustrator(c) { Some(clean_bnf_name_spec(c)) } else { None }),
            views(out@) == views(raw@).take(i as int).filter_map(f),
        decreases raw@.len() - i,
    {
        proof {
            views(raw@).lemma_filter_map_take_succ(f, i as int);
        }
        assert(views(raw@)[i as int] == raw@[i as int]@);
        let cc = chars_of(raw[i].as_str());
        let ghost before = out@;
        if contains(&cc, &ill) || contains(&cc, &des) {
            out.push(clean_bnf_name(raw[i].as_str()));
            assert(views(out@) =~= views(before) + seq![out@.last()@]);
        }
        i = i + 1;
    }
    assert(views(raw@).take(raw@.len() as int) =~= views(raw@));
    out
}

/// One Dublin Core record of a BNF answer.
pub fn bnf_candidate(record: &str, query: &str, barcode: bool) -> (c: Option<Candidate>)
    ensures
        match c {
            Some(c) => bnf_record(record@, query@, barcode) == Some(c@),
            None => bnf_record(record@, query@, barcode).is_none(),
        },
{
    let titles = xml_tags(record, "dc:title");
    if titles.len() == 0 {
        return None;
    }
    let tc = chars_of(titles[0].as_str());
    let slash = chars3(' ', '/', ' ');
    let titre = trim_chars(&before_sep(&tc, &slash));
    let ids = xml_tags(record, "dc:identifier");
    let publishers = xml_tags(record, "dc:publisher");
    let dates = xml_tags(record, "dc:date");
    let editeur = if publishers.len() > 0 {
        let pc = chars_of(publishers[0].as_str());
        let mut paren: Vec<char> = Vec::new();
        paren.push(' ');
        paren.push('(');
        assert(paren@ =~= seq![' ', '(']);
        Some(string_of(&trim_chars(&before_sep(&pc, &paren))))
    } else {
        None
    };
    let date_parution = if dates.len() > 0 { Some(dates[0].clone()) } else { None };
    let ean = match ean_of(&ids) {
        Some(e) => Some(e),
        None => if barcode { Some(owned(query)) } else { None },
    };
    let cover_url = match ark_of(&ids) {
        Some(a) => Some(concat3("https://catalogue.bnf.fr/couverture?appName=NE&idArk=", a.as_str(), "&couverture=1")),
        None => None,
    };
    let creators = xml_tags(record, "dc:creator");
    let contributors = xml_tags(record, "dc:contributor");
    let c = Candidate {
        source: owned("BNF"),
        titre: Some(string_of(&titre)),
        auteurs: clean_all(&creators),
        illustrateurs: illustrators(&contributors),
        editeur,
        date_parution,
        ean,
        synopsis: None,
        cover_url,
        score: None,
        genre: None,
        acteurs: Vec::new(),
    };
    assert(c@.acteurs =~= Seq::<Seq<char>>::empty());
    assert(views(titles@)[0] == titles@[0]@);
    assert(views(publishers@).len() == publishers@.len());
    assert(views(dates@).len() == dates@.len());
    assert(publishers@.len() > 0 ==> views(publishers@)[0] == publishers@[0]@);
    assert(dates@.len() > 0 ==> views(dates@)[0] == dates@[0]@);
    Some(c)
}

/// The candidates of an SRU answer of the BNF.
pub fn bnf_candidates(xml: &str, query: &str, barcode: bool) -> (r: Vec<Candidate>)
    ensures
        cands(r@) == bnf_records(xml@).filter_map(bnf_record_fn(query@, barcode)),
{
    let xc = chars_of(xml);
    let open = chars_of("<srw:recordData>");
    let close = chars_of("</srw:recordData>");
    proof {
        reveal_strlit("<srw:recordData>");
    }
    let pieces = split(&xc, &open);
    let ghost records = bnf_records(xml@);
    let ghost f = bnf_record_fn(query@, barcode);
    let ghost pv = pieces@.map_values(|v: Vec<char>| v@);
    assert(pv.len() == pieces@.len());
    let mut out: Vec<Candidate> = Vec::new();
    if pieces.len() == 0 {
        assert(records =~= Seq::<Seq<char>>::empty());
        assert(cands(out@) =~= records.filter_map(f));
        return out;
    }
    assert(records.len() == pieces@.len() - 1);
    let mut i: usize = 1;
    while i < pieces.len()
        invariant
            1 <= i <= pieces@.len(),
            pv == pieces@.map_values(|v: Vec<char>| v@),
            pv == split_spec(xml@, "<srw:recordData>"@),
            close@ == "</srw:recordData>"@,
            records == bnf_records(xml@),
            records.len() == pieces@.len() - 1,
            f == bnf_record_fn(query@, barcode),
            cands(out@) == records.take(i - 1).filter_map(f),
        decreases pieces@.len() - i,
    {
        proof {
            records.lemma_filter_map_take_succ(f, i - 1);
        }
        assert(records[i - 1] == before_first(pv[i as int], "</srw:recordData>"@));
        let body = before_sep(&pieces[i], &close);
        let text = string_of(&body);
        let ghost before = out@;
        match bnf_candidate(text.as_str(), query, barcode) {
            Some(c) => {
                out.push(c);
                assert(cands(out@) =~= cands(before) + seq![out@.last()@]);
            },
            None => {},
        }
        i = i + 1;
    }
    assert(records.take(records.len() as int) =~= records);
    out
}

// ---------------------------------------------------------------------------
// Planning a search
// ---------------------------------------------------------------------------

/// A catalogue that a search asks.
#[derive(Debug, Clone, Copy, PartialEq, Eq, Structural)]
pub enum Adapter {
    Bnf,
    GoogleBooks,
    OpenLibrary,
    MusicBrainz,
    Discogs,
    Tmdb,
}

/// The catalogues to ask, in the order of their answers, and whether the
/// query is a barcode.
#[derive(Debug)]
pub struct SearchPlan {
    pub adapters: Vec<Adapter>,
    pub barcode: bool,
}

/// What a search in a collection of hydration source `source` asks: BNF
/// first (the reference for French books and comics), then Google Books
/// and OpenLibrary; MusicBrainz, and Discogs when a token is configured;
/// TMDB by title only, with a key.
pub open spec fn plan_spec(source: Seq<char>, query: Seq<char>, has_tmdb_key: bool, has_discogs_token: bool) -> Result<(Seq<Adapter>, bool), Seq<char>> {
    if source == "bd"@ || source == "livres"@ {
        Ok((seq![Adapter::Bnf, Adapter::GoogleBooks, Adapter::OpenLibrary], is_barcode(query)))
    } else if source == "cd"@ {
        if has_discogs_token {
            Ok((seq![Adapter::MusicBrainz, Adapter::Discogs], is_barcode(query)))
        } else {
            Ok((seq![Adapter::MusicBrainz], is_barcode(query)))
        }
    } else if source == "dvd"@ {
        if !has_tmdb_key {
            Err("TMDB_KEY_MISSING : clé d'API TMDB non configurée (themoviedb.org → Paramètres → API)"@)
        } else if is_barcode(query) {
            Err("TMDB ne connaît pas les codes-barres — recherchez par titre de film"@)
        } else {
            Ok((seq![Adapter::Tmdb], false))
        }
    } else {
        Err("hydratation pas encore disponible pour « "@ + source + " » (adaptateur à venir)"@)
    }
}

/// Decides which catalogues a search asks (the decisions of the search
/// command; the caller performs the requests and `combine`s the answers).
pub fn plan_search(source: &str, query: &str, has_tmdb_key: bool, has_discogs_token: bool) -> (r: Result<SearchPlan, String>)
    ensures
        match r {
            Ok(p) => plan_spec(source@, query@, has_tmdb_key, has_discogs_token) == Ok::<(Seq<Adapter>, bool), Seq<char>>((p.adapters@, p.barcode)),
            Err(e) => plan_spec(source@, query@, has_tmdb_key, has_discogs_token) == Err::<(Seq<Adapter>, bool), Seq<char>>(e@),
        },
{
    if str_eq(source, "bd") || str_eq(source, "livres") {
        let v = vec![Adapter::Bnf, Adapter::GoogleBooks, Adapter::OpenLibrary];
        assert(v@ =~= seq![Adapter::Bnf, Adapter::GoogleBooks, Adapter::OpenLibrary]);
        Ok(SearchPlan { adapters: v, barcode: looks_like_barcode(query) })
    } else if str_eq(source, "cd") {
        if has_discogs_token {
            let v = vec![Adapter::MusicBrainz, Adapter::Discogs];
            assert(v@ =~= seq![Adapter::MusicBrainz, Adapter::Discogs]);
            Ok(SearchPlan { adapters: v, barcode: looks_like_barcode(query) })
        } else {
            let v = vec![Adapter::MusicBrainz];
            assert(v@ =~= seq![Adapter::MusicBrainz]);
            Ok(SearchPlan { adapters: v, barcode: looks_like_barcode(query) })
        }
    } else if str_eq(source, "dvd") {
        if !has_tmdb_key {
            Err(owned("TMDB_KEY_MISSING : clé d'API TMDB non configurée (themoviedb.org → Paramètres → API)"))
        } else if looks_like_barcode(query) {
            Err(owned("TMDB ne connaît pas les codes-barres — recherchez par titre de film"))
        } else {
            let v = vec![Adapter::Tmdb];
            assert(v@ =~= seq![Adapter::Tmdb]);
            Ok(SearchPlan { adapters: v, barcode: false })
        }
    } else {
        Err(concat3("hydratation pas encore disponible pour « ", source, " » (adaptateur à venir)"))
    }
}

// ---------------------------------------------------------------------------
// Candidate to the fields of the target schema
// ---------------------------------------------------------------------------

/// A field key reduced to its lower-case ASCII letters and digits
/// (`auteur_s` gives `auteurs`).
pub open spec fn key_norm(k: Seq<char>) -> Seq<char>
    decreases k.len(),
{
    if k.len() == 0 {
        k
    } else if is_alnum(k.last()) {
        key_norm(k.drop_last()).push(lower(k.last()))
    } else {
        key_norm(k.drop_last())
    }
}

/// Reduces a key to its lower-case ASCII letters and digits.
pub fn norm_key(key: &str) -> (r: Vec<char>)
    ensures
        r@ == key_norm(key@),
{
    let cs = chars_of(key);
    let mut out: Vec<char> = Vec::new();
    let mut i: usize = 0;
    while i < cs.len()
        invariant
            i <= cs@.len(),
            cs@ == key@,
            out@ == key_norm(cs@.take(i as int)),
        decreases cs@.len() - i,
    {
        assert(cs@.take(i + 1).drop_last() =~= cs@.take(i as int));
        if is_ascii_alphanumeric(cs[i]) {
            out.push(to_ascii_lower(cs[i]));
        }
        i = i + 1;
    }
    assert(cs@.take(cs@.len() as int) =~= cs@);
    out
}

/// Normalised keys that match, singular or plural (`auteur` and `auteurs`).
pub open spec fn keys_match(nf: Seq<char>, nw: Seq<char>) -> bool {
    nf == nw || nf == nw.push('s') || nf.push('s') == nw
}

pub open spec fn matcher(w: Seq<char>) -> spec_fn(FieldDef) -> Option<FieldDef> {
    |f: FieldDef| if keys_match(key_norm(f.key@), key_norm(w)) { Some(f) } else { None }
}

/// The first field of the schema that matches one of the wanted keys, tried
/// in order: insensitive to underscores and plurals, so that custom
/// collections work without exact naming.
pub open spec fn target_spec(fields: Seq<FieldDef>, wanted: Seq<Seq<char>>) -> Option<FieldDef>
    decreases wanted.len(),
{
    if wanted.len() == 0 {
        None
    } else {
        match find_map(fields, matcher(wanted[0])) {
            Some(f) => Some(f),
            None => target_spec(fields, wanted.drop_first()),
        }
    }
}

/// The position of the field that `target_spec` designates.
pub fn find_target(schema: &Schema, wanted: &[&str]) -> (r: Option<usize>)
    ensures
        match r {
            Some(i) => i < schema.fields@.len() && target_spec(schema.fields@, strs(wanted@)) == Some(schema.fields@[i as int]),
            None => target_spec(schema.fields@, strs(wanted@)).is_none(),
        },
{
    let ghost fs = schema.fields@;
    let mut w: usize = 0;
    assert(strs(wanted@).skip(0) =~= strs(wanted@));
    while w < wanted.len()
        invariant
            w <= wanted@.len(),
            fs == schema.fields@,
            target_spec(fs, strs(wanted@)) == target_spec(fs, strs(wanted@).skip(w as int)),
        decreases wanted@.len() - w,
    {
        let ghost ws = strs(wanted@).skip(w as int);
        assert(ws.drop_first() =~= strs(wanted@).skip(w + 1));
        assert(ws[0] == wanted@[w as int]@);
        let nw = norm_key(wanted[w]);
        let mut plural_w = norm_key(wanted[w]);
        plural_w.push('s');
        let mut i: usize = 0;
        assert(fs.skip(0) =~= fs);
        while i < schema.fields.len()
            invariant
                i <= fs.len(),
                fs == schema.fields@,
                w < wanted@.len(),
                ws == strs(wanted@).skip(w as int),
                ws.drop_first() =~= strs(wanted@).skip(w + 1),
                target_spec(fs, strs(wanted@)) == target_spec(fs, ws),
                nw@ == key_norm(ws[0]),
                plural_w@ == key_norm(ws[0]).push('s'),
                find_map(fs, matcher(ws[0])) == find_map(fs.skip(i as int), matcher(ws[0])),
            decreases fs.len() - i,
        {
            let ghost rest = fs.skip(i as int);
            assert(rest.drop_first() =~= fs.skip(i + 1));
            assert(rest[0] == fs[i as int]);
            let nf = norm_key(schema.fields[i].key.as_str());
            let mut plural_f = norm_key(schema.fields[i].key.as_str());
            plural_f.push('s');
            if seq_eq(&nf, &nw) || seq_eq(&nf, &plural_w) || seq_eq(&plural_f, &nw) {
                return Some(i);
            }
            i = i + 1;
        }
        assert(fs.skip(fs.len() as int) =~= Seq::<FieldDef>::empty());
        w = w + 1;
    }
    None
}

/// The position of the first field with key `k`.
fn field_with_key(fields: &Vec<FieldDef>, k: &str) -> (r: Option<usize>)
    ensures
        opt_int(r) == first(fields@, |f: FieldDef| f.key@ == k@),
        r is None ==> forall|j: int| 0 <= j < fields@.len() ==> (#[trigger] fields@[j]).key@ != k@,
{
    let ghost p = |f: FieldDef| f.key@ == k@;
    let mut i: usize = 0;
    while i < fields.len()
        invariant
            i <= fields@.len(),
            p == (|f: FieldDef| f.key@ == k@),
            forall|j: int| 0 <= j < i ==> !p(#[trigger] fields@[j]),
        decreases fields@.len() - i,
    {
        if str_eq(fields[i].key.as_str(), k) {
            proof {
                lemma_first_some(fields@, p, i as int);
            }
            return Some(i);
        }
        i = i + 1;
    }
    proof {
        lemma_first_none(fields@, p);
    }
    None
}

pub open spec fn genre_keys() -> Seq<Seq<char>> {
    seq!["genre"@, "style"@]
}

/// The first option of a field that names the same thing as `genre`.
pub open spec fn matching_option(opts: Seq<SelectOption>, genre: Seq<char>) -> Option<int> {
    first(opts, |o: SelectOption| same_thing_spec(o.value@, genre))
}

/// The first option of `def` naming the same thing as `genre`.
fn find_option(def: &FieldDef, genre: &str) -> (r: Option<usize>)
    ensures
        opt_int(r) == matching_option(def.options@, genre@),
{
    let ghost p = |o: SelectOption| same_thing_spec(o.value@, genre@);
    let mut i: usize = 0;
    while i < def.options.len()
        invariant
            i <= def.options@.len(),
            p == (|o: SelectOption| same_thing_spec(o.value@, genre@)),
            forall|j: int| 0 <= j < i ==> !p(#[trigger] def.options@[j]),
        decreases def.options@.len() - i,
    {
        if same_thing(def.options[i].value.as_str(), genre) {
            proof {
                lemma_first_some(def.options@, p, i as int);
            }
            return Some(i);
        }
        i = i + 1;
    }
    proof {
        lemma_first_none(def.options@, p);
    }
    None
}

/// `new` is `old` where field `j` got one more option, of value `value`,
/// with the first unused code derived from it.
pub open spec fn option_appended(old: Seq<FieldDef>, new: Seq<FieldDef>, j: int, value: Seq<char>) -> bool {
    let def = old[j];
    let opts = new[j].options@;
    &&& new.len() == old.len()
    &&& forall|q: int| 0 <= q < old.len() && q != j ==> new[q] == old[q]
    &&& new[j].key == def.key
    &&& new[j].label == def.label
    &&& new[j].field_type == def.field_type
    &&& new[j].required == def.required
    &&& new[j].max == def.max
    &&& opts.len() == def.options@.len() + 1
    &&& opts.drop_last() == def.options@
    &&& opts.last().value@ == value
    &&& opts.last().code is Some
    &&& opts.last().code.unwrap()@ == unique_code_spec(codes(def.options@), derive_code_spec(value))
}

/// Matches a proposed genre with the options of the schema's genre field;
/// an unknown genre is appended with a shelf-mark code that no other option
/// uses. Returns the field key, the canonical value and whether it was
/// added. Nothing when the schema has no select genre field.
pub fn ensure_genre(schema: &mut Schema, genre: &str) -> (r: Option<(String, String, bool)>)
    ensures
        final(schema).name == old(schema).name,
        final(schema).id_prefix == old(schema).id_prefix,
        final(schema).source == old(schema).source,
        final(schema).cote == old(schema).cote,
        final(schema).fields@.len() == old(schema).fields@.len(),
        match target_spec(old(schema).fields@, genre_keys()) {
            None => r.is_none() && final(schema).fields@ == old(schema).fields@,
            Some(t) => match first(old(schema).fields@, |f: FieldDef| f.key@ == t.key@) {
                None => false,
                Some(j) => {
                    let def = old(schema).fields@[j];
                    if def.field_type != FieldType::Select {
                        r.is_none() && final(schema).fields@ == old(schema).fields@
                    } else {
                        match matching_option(def.options@, genre@) {
                            Some(o) => r matches Some((k, v, added)) && k@ == t.key@ && v@ == def.options@[o].value@
                                && !added && final(schema).fields@ == old(schema).fields@,
                            None => (r matches Some((k, v, added)) && k@ == t.key@ && v@ == genre@ && added)
                                && option_appended(old(schema).fields@, final(schema).fields@, j, genre@),
                        }
                    }
                },
            },
        },
{
    let wanted: &[&str] = &["genre", "style"];
    assert(strs(wanted@) =~= genre_keys());
    let t = match find_target(schema, wanted) {
        Some(t) => t,
        None => return None,
    };
    let key = schema.fields[t].key.clone();
    let j = match field_with_key(&schema.fields, key.as_str()) {
        Some(j) => j,
        None => {
            assert(schema.fields@[t as int].key@ == key@);
            return None;
        },
    };
    if schema.fields[j].field_type != FieldType::Select {
        return None;
    }
    match find_option(&schema.fields[j], genre) {
        Some(o) => {
            let v = schema.fields[j].options[o].value.clone();
            Some((key, v, false))
        },
        None => {
            let ghost before = schema.fields@;
            let mut def = schema.fields.remove(j);
            let _code = add_option_with_unique_code(&mut def, genre);
            schema.fields.insert(j, def);
            proof {
                assert forall|q: int| 0 <= q < before.len() && q != j implies schema.fields@[q] == before[q] by {
                    if q < j {
                        assert(schema.fields@[q] == before.remove(j as int)[q]);
                    } else {
                        assert(schema.fields@[q] == before.remove(j as int)[q - 1]);
                    }
                }
            }
            Some((key, owned(genre), true))
        },
    }
}

/// Two lists of fields with the same keys, position by position.
pub open spec fn same_keys(a: Seq<FieldDef>, b: Seq<FieldDef>) -> bool {
    &&& a.len() == b.len()
    &&& forall|q: int| 0 <= q < a.len() ==> (#[trigger] a[q]).key == b[q].key
}

/// The field that a key designates depends on the keys alone.
proof fn lemma_find_map_same_keys(a: Seq<FieldDef>, b: Seq<FieldDef>, w: Seq<char>)
    requires
        same_keys(a, b),
    ensures
        match (find_map(a, matcher(w)), find_map(b, matcher(w))) {
            (Some(x), Some(y)) => x.key == y.key,
            (None, None) => true,
            _ => false,
        },
    decreases a.len(),
{
    if a.len() > 0 {
        assert(a[0].key == b[0].key);
        assert forall|q: int| 0 <= q < a.drop_first().len() implies (#[trigger] a.drop_first()[q]).key == b.drop_first()[q].key by {
            assert(a.drop_first()[q] == a[q + 1]);
            assert(b.drop_first()[q] == b[q + 1]);
        }
        lemma_find_map_same_keys(a.drop_first(), b.drop_first(), w);
    }
}

proof fn lemma_target_same_keys(a: Seq<FieldDef>, b: Seq<FieldDef>, wanted: Seq<Seq<char>>)
    requires
        same_keys(a, b),
    ensures
        match (target_spec(a, wanted), target_spec(b, wanted)) {
            (Some(x), Some(y)) => x.key == y.key,
            (None, None) => true,
            _ => false,
        },
    decreases wanted.len(),
{
    if wanted.len() > 0 {
        lemma_find_map_same_keys(a, b, wanted[0]);
        lemma_target_same_keys(a, b, wanted.drop_first());
    }
}

/// Law (a genre is added once): after `ensure_genre` has appended `genre`
/// to the options of field `j` (the field that the genre keys designate),
/// asking for the same genre again designates the same field, which is
/// still a list of choices, and one of its options matches: nothing more
/// is added. This holds of a genre with at least one letter or digit; one
/// without any (`---`) matches no option and is appended again.
pub proof fn law_genre_added_once(old: Seq<FieldDef>, new: Seq<FieldDef>, j: int, genre: Seq<char>)
    requires
        0 <= j < old.len(),
        target_spec(old, genre_keys()) matches Some(t) && first(old, |f: FieldDef| f.key@ == t.key@) == Some(j),
        old[j].field_type == FieldType::Select,
        option_appended(old, new, j, genre),
        norm_spec(genre).len() > 0,
    ensures
        target_spec(new, genre_keys()) matches Some(t2) && first(new, |f: FieldDef| f.key@ == t2.key@) == Some(j),
        new[j].field_type == FieldType::Select,
        matching_option(new[j].options@, genre) is Some,
{
    assert(same_keys(old, new)) by {
        assert forall|q: int| 0 <= q < old.len() implies (#[trigger] old[q]).key == new[q].key by {
            if q != j {
                assert(new[q] == old[q]);
            }
        }
    }
    lemma_target_same_keys(old, new, genre_keys());
    let t = target_spec(old, genre_keys()).unwrap();
    let t2 = target_spec(new, genre_keys()).unwrap();
    lemma_first_pointwise(old, |f: FieldDef| f.key@ == t.key@, new, |f: FieldDef| f.key@ == t2.key@);
    let opts = new[j].options@;
    let k = opts.len() - 1;
    let p = |o: SelectOption| same_thing_spec(o.value@, genre);
    assert(opts[k] == opts.last());
    assert(p(opts[k]));
    lemma_first_exists(opts, p, k);
}

/// A list of names as the value of a field: a list for a list field, else
/// the names joined by " ; ".
pub open spec fn names_value_spec(ft: FieldType, names: Seq<Seq<char>>) -> ValueV {
    if ft == FieldType::TextList || ft == FieldType::Tags {
        ValueV::Array(str_views(names))
    } else {
        ValueV::Str(join_spec(names, " ; "@))
    }
}

pub fn names_value(field: &FieldDef, names: &Vec<String>) -> (r: Value)
    ensures
        vview(r) == names_value_spec(field.field_type, views(names@)),
{
    match field.field_type {
        FieldType::TextList | FieldType::Tags => str_array(names.as_slice()),
        _ => Value::Str(join(names.as_slice(), " ; ")),
    }
}

/// A text write into the field that `wanted` designates.
pub open spec fn text_write(fields: Seq<FieldDef>, wanted: Seq<Seq<char>>, v: Option<Seq<char>>) -> Seq<(Seq<char>, ValueV)> {
    match (v, target_spec(fields, wanted)) {
        (Some(t), Some(f)) => seq![(f.key@, ValueV::Str(t))],
        _ => Seq::empty(),
    }
}

/// A write of names into the field that `wanted` designates, when there are any.
pub open spec fn names_write(fields: Seq<FieldDef>, wanted: Seq<Seq<char>>, names: Seq<Seq<char>>) -> Seq<(Seq<char>, ValueV)> {
    match target_spec(fields, wanted) {
        Some(f) => if names.len() > 0 { seq![(f.key@, names_value_spec(f.field_type, names))] } else { Seq::empty() },
        None => Seq::empty(),
    }
}

/// A genre is only written when it matches an option of the genre field.
pub open spec fn genre_write(fields: Seq<FieldDef>, genre: Option<Seq<char>>) -> Seq<(Seq<char>, ValueV)> {
    match (genre, target_spec(fields, genre_keys())) {
        (Some(g), Some(def)) => match matching_option(def.options@, g) {
            Some(o) => seq![(def.key@, ValueV::Str(def.options@[o].value@))],
            None => Seq::empty(),
        },
        _ => Seq::empty(),
    }
}

/// The writes that a candidate makes into the fields of a schema, in order.
/// A genre is only written when it matches an existing option: hydration
/// never creates an option, unlike the CSV import.
pub open spec fn candidate_writes(fields: Seq<FieldDef>, c: CandidateV) -> Seq<(Seq<char>, ValueV)> {
    text_write(fields, seq!["titre"@], c.titre)
        + names_write(fields, seq!["scenariste"@, "auteur"@, "artiste"@, "realisateur"@], c.auteurs)
        + names_write(fields, seq!["dessinateur"@, "illustrateur"@], c.illustrateurs)
        + text_write(fields, seq!["editeur"@, "label"@], c.editeur)
        + text_write(fields, seq!["date_parution"@, "date_sortie"@, "date"@, "annee"@, "parution"@], c.date_parution)
        + text_write(fields, seq!["synopsis"@, "resume"@, "description"@], c.synopsis)
        + text_write(fields, seq!["ean"@, "isbn"@, "code_barres"@], c.ean)
        + names_write(fields, seq!["acteurs"@], c.acteurs)
        + genre_write(fields, c.genre)
}

/// The map that a sequence of writes leaves, a later write to a key winning.
pub open spec fn applied(ws: Seq<(Seq<char>, ValueV)>) -> Map<Seq<char>, ValueV>
    decreases ws.len(),
{
    if ws.len() == 0 {
        Map::empty()
    } else {
        applied(ws.drop_last()).insert(ws.last().0, ws.last().1)
    }
}

/// The fields of a map, every value by its abstract value.
pub open spec fn fields_view(m: StrMap<Value>) -> Map<Seq<char>, ValueV> {
    Map::new(|k: Seq<char>| m.view().dom().contains(k), |k: Seq<char>| vview(m.view()[k]))
}

/// Records a write in `out`.
pub fn write_value(out: &mut StrMap<Value>, key: &String, value: Value, Ghost(ws): Ghost<Seq<(Seq<char>, ValueV)>>)
    requires
        old(out).wf(),
        fields_view(*old(out)) == applied(ws),
    ensures
        final(out).wf(),
        fields_view(*final(out)) == applied(ws + seq![(key@, vview(value))]),
{
    let ghost v = vview(value);
    out.insert(key.clone(), value);
    assert((ws + seq![(key@, v)]).drop_last() =~= ws);
    assert(fields_view(*out) =~= applied(ws).insert(key@, v));
}

/// Writes text `v` into the field that `wanted` designates.
fn put_text(out: &mut StrMap<Value>, schema: &Schema, wanted: &[&str], v: &Option<String>, Ghost(ws): Ghost<Seq<(Seq<char>, ValueV)>>)
    requires
        old(out).wf(),
        fields_view(*old(out)) == applied(ws),
    ensures
        final(out).wf(),
        fields_view(*final(out)) == applied(ws + text_write(schema.fields@, strs(wanted@), opt_view(*v))),
{
    match v {
        Some(t) => match find_target(schema, wanted) {
            Some(i) => {
                write_value(out, &schema.fields[i].key, Value::Str(t.clone()), Ghost(ws));
            },
            None => {
                assert(ws + text_write(schema.fields@, strs(wanted@), opt_view(*v)) =~= ws);
            },
        },
        None => {
            assert(ws + text_write(schema.fields@, strs(wanted@), opt_view(*v)) =~= ws);
        },
    }
}

/// Writes names into the field that `wanted` designates.
fn put_names(out: &mut StrMap<Value>, schema: &Schema, wanted: &[&str], names: &Vec<String>, Ghost(ws): Ghost<Seq<(Seq<char>, ValueV)>>)
    requires
        old(out).wf(),
        fields_view(*old(out)) == applied(ws),
    ensures
        final(out).wf(),
        fields_view(*final(out)) == applied(ws + names_write(schema.fields@, strs(wanted@), views(names@))),
{
    if names.len() > 0 {
        match find_target(schema, wanted) {
            Some(i) => {
                let v = names_value(&schema.fields[i], names);
                write_value(out, &schema.fields[i].key, v, Ghost(ws));
            },
            None => {
                assert(ws + names_write(schema.fields@, strs(wanted@), views(names@)) =~= ws);
            },
        }
    } else {
        assert(ws + names_write(schema.fields@, strs(wanted@), views(names@)) =~= ws);
    }
}

/// Writes a genre that matches an option of the genre field.
fn put_genre(out: &mut StrMap<Value>, schema: &Schema, genre: &Option<String>, Ghost(ws): Ghost<Seq<(Seq<char>, ValueV)>>)
    requires
        old(out).wf(),
        fields_view(*old(out)) == applied(ws),
    ensures
        final(out).wf(),
        fields_view(*final(out)) == applied(ws + genre_write(schema.fields@, opt_view(*genre))),
{
    let w_genre: &[&str] = &["genre", "style"];
    assert(strs(w_genre@) =~= genre_keys());
    if let Some(g) = genre {
        if let Some(i) = find_target(schema, w_genre) {
            if let Some(o) = find_option(&schema.fields[i], g.as_str()) {
                let v = schema.fields[i].options[o].value.clone();
                write_value(out, &schema.fields[i].key, Value::Str(v), Ghost(ws));
                return;
            }
        }
    }
    assert(ws + genre_write(schema.fields@, opt_view(*genre)) =~= ws);
}

/// Converts a candidate into fields, keeping only what has a matching field
/// in the schema (tolerant matching, see `find_target`).
pub fn candidate_to_fields(schema: &Schema, c: &Candidate) -> (r: StrMap<Value>)
    ensures
        r.wf(),
        fields_view(r) == applied(candidate_writes(schema.fields@, c@)),
{
    let ghost fs = schema.fields@;
    let mut out: StrMap<Value> = StrMap::new();
    assert(fields_view(out) =~= applied(Seq::empty()));
    let w_titre: &[&str] = &["titre"];
    let w_auteurs: &[&str] = &["scenariste", "auteur", "artiste", "realisateur"];
    let w_ill: &[&str] = &["dessinateur", "illustrateur"];
    let w_editeur: &[&str] = &["editeur", "label"];
    let w_date: &[&str] = &["date_parution", "date_sortie", "date", "annee", "parution"];
    let w_syn: &[&str] = &["synopsis", "resume", "description"];
    let w_ean: &[&str] = &["ean", "isbn", "code_barres"];
    let w_acteurs: &[&str] = &["acteurs"];
    assert(strs(w_titre@) =~= seq!["titre"@]);
    assert(strs(w_auteurs@) =~= seq!["scenariste"@, "auteur"@, "artiste"@, "realisateur"@]);
    assert(strs(w_ill@) =~= seq!["dessinateur"@, "illustrateur"@]);
    assert(strs(w_editeur@) =~= seq!["editeur"@, "label"@]);
    assert(strs(w_date@) =~= seq!["date_parution"@, "date_sortie"@, "date"@, "annee"@, "parution"@]);
    assert(strs(w_syn@) =~= seq!["synopsis"@, "resume"@, "description"@]);
    assert(strs(w_ean@) =~= seq!["ean"@, "isbn"@, "code_barres"@]);
    assert(strs(w_acteurs@) =~= seq!["acteurs"@]);
    let ghost w0 = Seq::<(Seq<char>, ValueV)>::empty();
    put_text(&mut out, schema, w_titre, &c.titre, Ghost(w0));
    let ghost w1 = w0 + text_write(fs, seq!["titre"@], c@.titre);
    put_names(&mut out, schema, w_auteurs, &c.auteurs, Ghost(w1));
    let ghost w2 = w1 + names_write(fs, seq!["scenariste"@, "auteur"@, "artiste"@, "realisateur"@], c@.auteurs);
    put_names(&mut out, schema, w_ill, &c.illustrateurs, Ghost(w2));
    let ghost w3 = w2 + names_write(fs, seq!["dessinateur"@, "illustrateur"@], c@.illustrateurs);
    put_text(&mut out, schema, w_editeur, &c.editeur, Ghost(w3));
    let ghost w4 = w3 + text_write(fs, seq!["editeur"@, "label"@], c@.editeur);
    put_text(&mut out, schema, w_date, &c.date_parution, Ghost(w4));
    let ghost w5 = w4 + text_write(fs, seq!["date_parution"@, "date_sortie"@, "date"@, "annee"@, "parution"@], c@.date_parution);
    put_text(&mut out, schema, w_syn, &c.synopsis, Ghost(w5));
    let ghost w6 = w5 + text_write(fs, seq!["synopsis"@, "resume"@, "description"@], c@.synopsis);
    put_text(&mut out, schema, w_ean, &c.ean, Ghost(w6));
    let ghost w7 = w6 + text_write(fs, seq!["ean"@, "isbn"@, "code_barres"@], c@.ean);
    put_names(&mut out, schema, w_acteurs, &c.acteurs, Ghost(w7));
    let ghost w8 = w7 + names_write(fs, seq!["acteurs"@], c@.acteurs);
    put_genre(&mut out, schema, &c.genre, Ghost(w8));
    assert(w8 + genre_write(fs, c@.genre) =~= candidate_writes(fs, c@));
    out
}

// ---------------------------------------------------------------------------
// Retrying
// ---------------------------------------------------------------------------

/// Whether a failed exchange is worth one more try (after two seconds): a
/// network error (no status), a server error (5xx) or "too many requests"
/// (429). Public catalogues cough regularly; a few retries absorb most of
/// it without harassing them.
pub fn is_transient(status: Option<u16>) -> (r: bool)
    ensures
        r == match status {
            None => true,
            Some(s) => (500 <= s && s <= 599) || s == 429,
        },
{
    match status {
        None => true,
        Some(s) => (500 <= s && s <= 599) || s == 429,
    }
}

/// The most attempts a request gets.
pub const MAX_ATTEMPTS: u32 = 3;

/// After attempt number `attempt` (from 1) failed with `status` (`None`: no
/// answer), how long to wait before the next one, in milliseconds: 2 s
/// after the first, 4 s after the second, on a transient failure only, and
/// no more attempt after the third.
pub fn retry_wait(attempt: u32, status: Option<u16>) -> (r: Option<u64>)
    ensures
        r == if 1 <= attempt < MAX_ATTEMPTS && match status {
            None => true,
            Some(s) => (500 <= s && s <= 599) || s == 429,
        } {
            Some((2000 * attempt) as u64)
        } else {
            None::<u64>
        },
{
    if attempt >= 1 && attempt < MAX_ATTEMPTS && is_transient(status) {
        Some(2000u64 * attempt as u64)
    } else {
        None
    }
}

/// The mask that hides an API key in a message.
pub open spec fn key_mask() -> Seq<char> {
    seq!['•', '•', '•']
}

/// A message with every occurrence of the API key `key` hidden (`•••`);
/// an empty key hides nothing.
pub fn mask_key(text: &str, key: &str) -> (r: String)
    ensures
        r@ == replace_all(text@, key@, key_mask()),
{
    let k = crate::text::chars_of(key);
    if k.len() == 0 {
        return owned(text);
    }
    let t = crate::text::chars_of(text);
    let mut mask: Vec<char> = Vec::new();
    mask.push('•');
    mask.push('•');
    mask.push('•');
    assert(mask@ =~= key_mask());
    let out = crate::text::replace(&t, &k, &mask);
    crate::text::string_of(&out)
}

} // verus!
