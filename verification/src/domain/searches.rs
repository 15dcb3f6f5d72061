//! Saved OPS searches by applicant: the CQL query built from the search
//! fields, the batch position, and the choice of one document per DOCDB
//! family.
use vstd::prelude::*;
use crate::domain::storage::StorageError;
use crate::text::{
    alpha, chars_eq, chars_lt, chars_of, extend_all, extend_str, is_alpha, join, join_exec,
    lemma_split_on_nonempty, normalise_range, normalise_ws, opt_seq, remove2, seq_lt,
    signed_chars, signed_decimal, split_chars, split_on, string_of, trim, trim_str, trimmed, upper_all,
    upper_seq, views, without2,
};

verus! {

/// Results read per batch: one OPS search page.
pub const PAGE_SIZE: i64 = 100;
/// OPS returns at most the first 2,000 results of a query.
pub const MAX_RESULTS: i64 = 2000;

#[derive(Debug)]
pub enum SearchError {
    Storage(StorageError),
    EmptyName,
    DuplicateName(String),
    NotFound(String),
    EmptyApplicant,
    InvalidCountry,
    InvalidYears,
}

impl From<crate::domain::storage::StorageError> for SearchError {
    fn from(e: crate::domain::storage::StorageError) -> (r: Self) {
        SearchError::Storage(e)
    }
}

impl vstd::std_specs::convert::FromSpecImpl<crate::domain::storage::StorageError> for SearchError {
    open spec fn obeys_from_spec() -> bool {
        true
    }

    open spec fn from_spec(e: crate::domain::storage::StorageError) -> SearchError {
        SearchError::Storage(e)
    }
}

impl From<rusqlite::Error> for SearchError {
    fn from(e: rusqlite::Error) -> (r: Self) {
        SearchError::Storage(crate::domain::storage::StorageError::Sqlite(e))
    }
}

impl vstd::std_specs::convert::FromSpecImpl<rusqlite::Error> for SearchError {
    open spec fn obeys_from_spec() -> bool {
        true
    }

    open spec fn from_spec(e: rusqlite::Error) -> SearchError {
        SearchError::Storage(crate::domain::storage::StorageError::Sqlite(e))
    }
}

/// The fields a search is created from.
#[derive(Debug, Clone, PartialEq)]
pub struct SearchFields {
    pub name: String,
    /// One or more applicant names separated by `;`.
    pub applicant: String,
    pub country: Option<String>,
    pub year_from: Option<i64>,
    pub year_to: Option<i64>,
}

impl Default for SearchFields {
    fn default() -> (r: Self)
        ensures
            r.name@ == Seq::<char>::empty(),
            r.applicant@ == Seq::<char>::empty(),
            r.country is None,
            r.year_from is None,
            r.year_to is None,
    {
        SearchFields { name: String::new(), applicant: String::new(), country: None, year_from: None, year_to: None }
    }
}

#[derive(Debug, Clone, PartialEq)]
pub struct SavedSearch {
    pub id: i64,
    pub name: String,
    pub applicant: String,
    pub country: Option<String>,
    pub year_from: Option<i64>,
    pub year_to: Option<i64>,
    pub query: String,
    /// `None` until the first batch has run.
    pub total_results: Option<i64>,
    /// 1-based position of the next batch's first result.
    pub next_start: i64,
    pub imported: i64,
    pub created_at: String,
    pub last_run_at: Option<String>,
    /// Every reachable result has been read.
    pub exhausted: bool,
    /// Results read so far in this pass.
    pub results_read: i64,
    /// More results match than OPS lets a client read.
    pub capped: bool,
}

/// One applicant name: without `"` and `\`, its words joined by single
/// spaces.
pub open spec fn clean_name(piece: Seq<char>) -> Seq<char> {
    normalise_ws(without2(piece, '"', '\\'))
}

pub open spec fn names_from(pieces: Seq<Seq<char>>) -> Seq<Seq<char>>
    decreases pieces.len(),
{
    if pieces.len() == 0 {
        Seq::empty()
    } else {
        let r = names_from(pieces.drop_last());
        let n = clean_name(pieces.last());
        if n.len() == 0 {
            r
        } else {
            r.push(n)
        }
    }
}

/// The non-empty applicant names of the `;`-separated list.
pub open spec fn applicant_names_model(applicant: Seq<char>) -> Seq<Seq<char>> {
    names_from(split_on(applicant, ';'))
}

fn applicant_names(applicant: &str) -> (r: Vec<Vec<char>>)
    ensures
        views(r@) == applicant_names_model(applicant@),
{
    let a = chars_of(applicant);
    let pieces = split_chars(a.as_slice(), ';');
    let ghost ps = views(pieces@);
    let mut out: Vec<Vec<char>> = Vec::new();
    let mut i: usize = 0;
    while i < pieces.len()
        invariant
            i <= pieces.len(),
            ps == views(pieces@),
            views(out@) == names_from(ps.take(i as int)),
        decreases pieces.len() - i,
    {
        assert(ps.take(i + 1).drop_last() =~= ps.take(i as int));
        let stripped = remove2(pieces[i].as_slice(), '"', '\\');
        let n = normalise_range(stripped.as_slice(), 0, stripped.len());
        assert(stripped@.subrange(0, stripped@.len() as int) =~= stripped@);
        if n.len() > 0 {
            out.push(n);
            assert(views(out@) =~= names_from(ps.take(i + 1)));
        }
        i += 1;
    }
    assert(ps.take(pieces.len() as int) =~= ps);
    out
}

pub open spec fn all_alpha(s: Seq<char>) -> bool {
    forall|i: int| 0 <= i < s.len() ==> is_alpha(#[trigger] s[i])
}

/// The country filter: none when blank, else two ASCII letters, upper-cased.
/// (A two-byte text of ASCII letters is exactly a two-letter one.)
pub open spec fn country_model(country: Option<Seq<char>>) -> Result<Option<Seq<char>>, ()> {
    match country {
        None => Ok(None),
        Some(c) => {
            let t = trim(c);
            if t.len() == 0 {
                Ok(None)
            } else if t.len() != 2 || !all_alpha(t) {
                Err(())
            } else {
                Ok(Some(upper_seq(t)))
            }
        },
    }
}

fn normalised_country(country: &Option<String>) -> (r: Result<Option<Vec<char>>, SearchError>)
    ensures
        match (r, country_model(opt_seq(*country))) {
            (Ok(None), Ok(None)) => true,
            (Ok(Some(c)), Ok(Some(d))) => c@ == d,
            (Err(SearchError::InvalidCountry), Err(())) => true,
            _ => false,
        },
{
    let c = match country {
        None => return Ok(None),
        Some(c) => c,
    };
    let t = trimmed(c.as_str());
    if t.len() == 0 {
        return Ok(None);
    }
    if t.len() != 2 || !alpha(t[0]) || !alpha(t[1]) {
        proof {
            if t.len() == 2 {
                assert(!is_alpha(t@[0]) || !is_alpha(t@[1]));
            }
        }
        return Err(SearchError::InvalidCountry);
    }
    Ok(Some(upper_all(t.as_slice())))
}

pub open spec fn year_ok(y: Option<i64>) -> bool {
    match y {
        None => true,
        Some(y) => 1000 <= y <= 9999,
    }
}

/// Years have four digits and the range is not reversed.
pub open spec fn years_ok(from: Option<i64>, to: Option<i64>) -> bool {
    year_ok(from) && year_ok(to) && match (from, to) {
        (Some(f), Some(t)) => f <= t,
        _ => true,
    }
}

fn check_years(year_from: Option<i64>, year_to: Option<i64>) -> (r: Result<(), SearchError>)
    ensures
        match r {
            Ok(()) => years_ok(year_from, year_to),
            Err(SearchError::InvalidYears) => !years_ok(year_from, year_to),
            _ => false,
        },
{
    let valid_from = match year_from {
        None => true,
        Some(y) => 1000 <= y && y <= 9999,
    };
    let valid_to = match year_to {
        None => true,
        Some(y) => 1000 <= y && y <= 9999,
    };
    if !valid_from || !valid_to {
        return Err(SearchError::InvalidYears);
    }
    if let (Some(from), Some(to)) = (year_from, year_to) {
        if from > to {
            return Err(SearchError::InvalidYears);
        }
    }
    Ok(())
}

/// `pa="<name>"`.
pub open spec fn term(n: Seq<char>) -> Seq<char> {
    "pa=\""@ + n + "\""@
}

pub open spec fn terms(ns: Seq<Seq<char>>) -> Seq<Seq<char>> {
    ns.map_values(|n: Seq<char>| term(n))
}

pub open spec fn year_clause(from: Option<i64>, to: Option<i64>) -> Seq<char> {
    match (from, to) {
        (Some(f), Some(t)) => " and pd within \""@ + signed_decimal(f as int) + " "@ + signed_decimal(t as int) + "\""@,
        (Some(f), None) => " and pd>="@ + signed_decimal(f as int),
        (None, Some(t)) => " and pd<="@ + signed_decimal(t as int),
        (None, None) => Seq::empty(),
    }
}

/// Why a search's fields cannot make a query.
pub enum QueryError {
    EmptyApplicant,
    InvalidCountry,
    InvalidYears,
}

/// The CQL query for the fields, e.g. `(pa="Siemens" or pa="Siemens
/// Healthineers") and pn=EP and pd within "2020 2024"`, or what is wrong
/// with them, checked in this order: applicant, country, years.
pub open spec fn query_model(applicant: Seq<char>, country: Option<Seq<char>>, from: Option<i64>, to: Option<i64>) -> Result<Seq<char>, QueryError> {
    let names = applicant_names_model(applicant);
    if names.len() == 0 {
        Err(QueryError::EmptyApplicant)
    } else {
        match country_model(country) {
            Err(()) => Err(QueryError::InvalidCountry),
            Ok(c) => if !years_ok(from, to) {
                Err(QueryError::InvalidYears)
            } else {
                let base = if names.len() == 1 {
                    term(names[0])
                } else {
                    "("@ + join(terms(names), " or "@) + ")"@
                };
                let with_country = match c {
                    Some(c) => base + " and pn="@ + c,
                    None => base,
                };
                Ok(with_country + year_clause(from, to))
            },
        }
    }
}

fn term_exec(n: &[char]) -> (r: Vec<char>)
    ensures
        r@ == term(n@),
{
    let mut t = chars_of("pa=\"");
    extend_all(&mut t, n);
    extend_str(&mut t, "\"");
    t
}

/// Builds the CQL query for `fields`.
#[verifier::rlimit(30)]
pub fn build_query(fields: &SearchFields) -> (r: Result<String, SearchError>)
    ensures
        match (r, query_model(fields.applicant@, opt_seq(fields.country), fields.year_from, fields.year_to)) {
            (Ok(q), Ok(m)) => q@ == m,
            (Err(SearchError::EmptyApplicant), Err(QueryError::EmptyApplicant)) => true,
            (Err(SearchError::InvalidCountry), Err(QueryError::InvalidCountry)) => true,
            (Err(SearchError::InvalidYears), Err(QueryError::InvalidYears)) => true,
            _ => false,
        },
{
    let names = applicant_names(fields.applicant.as_str());
    if names.len() == 0 {
        return Err(SearchError::EmptyApplicant);
    }
    let country = normalised_country(&fields.country)?;
    check_years(fields.year_from, fields.year_to)?;
    let ghost ns = views(names@);
    let mut ts: Vec<Vec<char>> = Vec::new();
    let mut i: usize = 0;
    while i < names.len()
        invariant
            i <= names.len(),
            ns == views(names@),
            views(ts@) == terms(ns.take(i as int)),
        decreases names.len() - i,
    {
        assert(ns[i as int] == names@[i as int]@);
        let ghost old_ts = views(ts@);
        let t = term_exec(names[i].as_slice());
        ts.push(t);
        assert(views(ts@) =~= old_ts.push(term(ns[i as int])));
        assert(terms(ns.take(i + 1)) =~= terms(ns.take(i as int)).push(term(ns[i as int])));
        i += 1;
    }
    assert(ns.take(names.len() as int) =~= ns);
    assert(views(ts@) =~= terms(ns));
    let ghost base = if ns.len() == 1 {
        term(ns[0])
    } else {
        "("@ + join(terms(ns), " or "@) + ")"@
    };
    let mut query = if ts.len() == 1 {
        assert(views(ts@)[0] == ts@[0]@);
        let t0 = crate::text::slice_vec(ts[0].as_slice(), 0, ts[0].len());
        assert(ts@[0]@.subrange(0, ts@[0]@.len() as int) =~= ts@[0]@);
        t0
    } else {
        let mut q = chars_of("(");
        let sep = chars_of(" or ");
        let joined = join_exec(&ts, sep.as_slice());
        extend_all(&mut q, joined.as_slice());
        extend_str(&mut q, ")");
        q
    };
    assert(query@ == base);
    if let Some(c) = country {
        extend_str(&mut query, " and pn=");
        extend_all(&mut query, c.as_slice());
    }
    let ghost with_country = query@;
    match (fields.year_from, fields.year_to) {
        (Some(from), Some(to)) => {
            extend_str(&mut query, " and pd within \"");
            extend_all(&mut query, signed_chars(from).as_slice());
            extend_str(&mut query, " ");
            extend_all(&mut query, signed_chars(to).as_slice());
            extend_str(&mut query, "\"");
        },
        (Some(from), None) => {
            extend_str(&mut query, " and pd>=");
            extend_all(&mut query, signed_chars(from).as_slice());
        },
        (None, Some(to)) => {
            extend_str(&mut query, " and pd<=");
            extend_all(&mut query, signed_chars(to).as_slice());
        },
        (None, None) => {},
    }
    assert(query@ =~= with_country + year_clause(fields.year_from, fields.year_to));
    Ok(string_of(query.as_slice()))
}

/// The 1-based, inclusive range the next batch reads: a full page from
/// `next_start`, cut at the reachable results (at most `MAX_RESULTS`, and
/// at most the total once known); `None` when everything reachable is read.
pub open spec fn next_range_model(total: Option<i64>, next_start: i64) -> Option<(i64, i64)> {
    let reachable: int = match total {
        None => MAX_RESULTS as int,
        Some(t) => if t < MAX_RESULTS {
            t as int
        } else {
            MAX_RESULTS as int
        },
    };
    if next_start > reachable {
        None
    } else {
        let end: int = if next_start + PAGE_SIZE - 1 < reachable {
            next_start + PAGE_SIZE - 1
        } else {
            reachable
        };
        Some((next_start, end as i64))
    }
}

pub fn next_range(search: &SavedSearch) -> (r: Option<(i64, i64)>)
    ensures
        r == next_range_model(search.total_results, search.next_start),
{
    let reachable = match search.total_results {
        None => MAX_RESULTS,
        Some(t) => if t < MAX_RESULTS {
            t
        } else {
            MAX_RESULTS
        },
    };
    let start = search.next_start;
    if start > reachable {
        return None;
    }
    let end = if start + PAGE_SIZE - 1 < reachable {
        start + PAGE_SIZE - 1
    } else {
        reachable
    };
    Some((start, end))
}

/// What a saved search's stored counters say of its progress: every
/// reachable result read, the results read in this pass (none before the
/// first batch), and whether more results match than can be read.
pub fn with_progress(search: SavedSearch) -> (r: SavedSearch)
    requires
        search.next_start > i64::MIN,
    ensures
        r == (SavedSearch {
            exhausted: next_range_model(search.total_results, search.next_start) is None,
            results_read: match search.total_results {
                None => 0,
                Some(t) => if search.next_start - 1 < t {
                    (search.next_start - 1) as i64
                } else {
                    t
                },
            },
            capped: match search.total_results {
                None => false,
                Some(t) => t > MAX_RESULTS,
            },
            ..search
        }),
{
    let exhausted = next_range(&search).is_none();
    let results_read = match search.total_results {
        None => 0,
        Some(t) => if search.next_start - 1 < t {
            search.next_start - 1
        } else {
            t
        },
    };
    let capped = match search.total_results {
        None => false,
        Some(t) => t > MAX_RESULTS,
    };
    SavedSearch { exhausted, results_read, capped, ..search }
}

/// A new search as it is stored: the trimmed name and applicant, the
/// country upper-cased (none when blank), and the query.
#[derive(Debug, Clone, PartialEq)]
pub struct NewSearch {
    pub name: String,
    pub applicant: String,
    pub country: Option<String>,
    pub query: String,
}

/// The checks of a new search's fields, in order: a name, then what
/// `build_query` checks. (That the name is free is for the caller.)
pub fn new_search(fields: &SearchFields) -> (r: Result<NewSearch, SearchError>)
    ensures
        trim(fields.name@).len() == 0 ==> r matches Err(SearchError::EmptyName),
        trim(fields.name@).len() > 0 ==> match (r, query_model(
            fields.applicant@,
            opt_seq(fields.country),
            fields.year_from,
            fields.year_to,
        )) {
            (Ok(n), Ok(q)) => {
                &&& n.name@ == trim(fields.name@)
                &&& n.applicant@ == trim(fields.applicant@)
                &&& n.query@ == q
                &&& country_model(opt_seq(fields.country)) matches Ok(c) && opt_seq(n.country) == c
            },
            (Err(SearchError::EmptyApplicant), Err(QueryError::EmptyApplicant)) => true,
            (Err(SearchError::InvalidCountry), Err(QueryError::InvalidCountry)) => true,
            (Err(SearchError::InvalidYears), Err(QueryError::InvalidYears)) => true,
            _ => false,
        },
{
    let name = trim_str(fields.name.as_str());
    if name.is_empty() {
        return Err(SearchError::EmptyName);
    }
    let query = build_query(fields)?;
    let country = match normalised_country(&fields.country) {
        Ok(Some(c)) => Some(string_of(c.as_slice())),
        Ok(None) => None,
        Err(e) => {
            return Err(e);
        },
    };
    Ok(NewSearch {
        name: name.to_owned(),
        applicant: trim_str(fields.applicant.as_str()).to_owned(),
        country,
        query,
    })
}

/// One search result, as far as choosing a family's document needs it.
#[derive(Debug, Clone, PartialEq, Eq)]
pub struct SearchHit {
    pub country: String,
    pub doc_number: String,
    pub kind: String,
    pub family_id: Option<String>,
    /// ISO 8601 (`YYYY-MM-DD`).
    pub publication_date: Option<String>,
    pub has_english_abstract: bool,
}

impl SearchHit {
    /// Country plus number, without kind code.
    pub fn pub_key(&self) -> (r: String)
        ensures
            r@ == self.country@ + self.doc_number@,
    {
        let mut v = chars_of(self.country.as_str());
        extend_str(&mut v, self.doc_number.as_str());
        string_of(v.as_slice())
    }

    /// The docdb id, e.g. `EP.1234567.A1`.
    pub fn docdb_id(&self) -> (r: String)
        ensures
            r@ == self.country@ + "."@ + self.doc_number@ + "."@ + self.kind@,
    {
        let mut v = chars_of(self.country.as_str());
        extend_str(&mut v, ".");
        extend_str(&mut v, self.doc_number.as_str());
        extend_str(&mut v, ".");
        extend_str(&mut v, self.kind.as_str());
        string_of(v.as_slice())
    }
}

/// The family a hit belongs to: its family id, else `pub:` and its
/// publication key.
pub open spec fn family_key(h: SearchHit) -> Seq<char> {
    match h.family_id {
        Some(f) => f@,
        None => "pub:"@ + h.country@ + h.doc_number@,
    }
}

/// Whether `a` is preferred to `b` as its family's document: an English
/// abstract first, then a known date, then the earlier date.
pub open spec fn preferred(a: SearchHit, b: SearchHit) -> bool {
    if a.has_english_abstract != b.has_english_abstract {
        a.has_english_abstract
    } else {
        match (a.publication_date, b.publication_date) {
            (Some(x), Some(y)) => seq_lt(x@, y@),
            (Some(_), None) => true,
            _ => false,
        }
    }
}

/// The families of the hits, in order of first appearance.
pub open spec fn families(hits: Seq<SearchHit>) -> Seq<Seq<char>>
    decreases hits.len(),
{
    if hits.len() == 0 {
        Seq::empty()
    } else {
        let r = families(hits.drop_last());
        if r.contains(family_key(hits.last())) {
            r
        } else {
            r.push(family_key(hits.last()))
        }
    }
}

/// The index of family `k`'s chosen hit: the first of its most preferred
/// hits.
pub open spec fn chosen(hits: Seq<SearchHit>, k: Seq<char>) -> Option<int>
    decreases hits.len(),
{
    if hits.len() == 0 {
        None
    } else {
        let p = chosen(hits.drop_last(), k);
        if family_key(hits.last()) == k {
            match p {
                None => Some(hits.len() - 1),
                Some(j) => if preferred(hits.last(), hits[j]) {
                    Some(hits.len() - 1)
                } else {
                    Some(j)
                },
            }
        } else {
            p
        }
    }
}

fn family_key_exec(h: &SearchHit) -> (r: Vec<char>)
    ensures
        r@ == family_key(*h),
{
    match &h.family_id {
        Some(f) => chars_of(f.as_str()),
        None => {
            let mut v = chars_of("pub:");
            extend_str(&mut v, h.country.as_str());
            extend_str(&mut v, h.doc_number.as_str());
            v
        },
    }
}

fn preferred_exec(a: &SearchHit, b: &SearchHit) -> (r: bool)
    ensures
        r == preferred(*a, *b),
{
    if a.has_english_abstract != b.has_english_abstract {
        return a.has_english_abstract;
    }
    match (&a.publication_date, &b.publication_date) {
        (Some(x), Some(y)) => {
            let xs = chars_of(x.as_str());
            let ys = chars_of(y.as_str());
            chars_lt(xs.as_slice(), ys.as_slice())
        },
        (Some(_), None) => true,
        _ => false,
    }
}

proof fn lemma_chosen_in(hits: Seq<SearchHit>, k: Seq<char>)
    ensures
        match chosen(hits, k) {
            Some(j) => 0 <= j < hits.len() && family_key(hits[j]) == k,
            None => forall|j: int| 0 <= j < hits.len() ==> family_key(#[trigger] hits[j]) != k,
        },
    decreases hits.len(),
{
    if hits.len() > 0 {
        lemma_chosen_in(hits.drop_last(), k);
        assert(forall|j: int| 0 <= j < hits.len() - 1 ==> hits[j] == hits.drop_last()[j]);
    }
}

proof fn lemma_families_contains(hits: Seq<SearchHit>, k: Seq<char>)
    ensures
        families(hits).contains(k) <==> exists|j: int| 0 <= j < hits.len() && family_key(#[trigger] hits[j]) == k,
    decreases hits.len(),
{
    if hits.len() > 0 {
        let d = hits.drop_last();
        lemma_families_contains(d, k);
        let r = families(d);
        let x = family_key(hits.last());
        assert(forall|j: int| 0 <= j < d.len() ==> d[j] == hits[j]);
        if exists|j: int| 0 <= j < hits.len() && family_key(#[trigger] hits[j]) == k {
            let j = choose|j: int| 0 <= j < hits.len() && family_key(#[trigger] hits[j]) == k;
            if j < hits.len() - 1 {
                assert(family_key(d[j]) == k);
                assert(r.contains(k));
                if !r.contains(x) {
                    let m = choose|m: int| 0 <= m < r.len() && r[m] == k;
                    assert(r.push(x)[m] == k);
                }
            } else {
                assert(x == k);
                if !r.contains(x) {
                    assert(r.push(x)[r.len() as int] == k);
                }
            }
            assert(families(hits).contains(k));
        }
        if families(hits).contains(k) {
            if r.contains(k) {
                let j = choose|j: int| 0 <= j < d.len() && family_key(#[trigger] d[j]) == k;
                assert(family_key(hits[j]) == k);
            } else if !r.contains(x) {
                let i = choose|i: int| 0 <= i < r.push(x).len() && r.push(x)[i] == k;
                if i < r.len() {
                    assert(r[i] == k);
                }
                assert(family_key(hits[hits.len() - 1]) == k);
            }
        }
    }
}

/// One hit per family, in order of each family's first appearance: the
/// earliest publication with an English abstract, else the earliest one.
/// Hits without a family id are grouped by publication key; a missing date
/// sorts last; ties keep page order.
pub fn one_per_family(hits: &[SearchHit]) -> (r: Vec<&SearchHit>)
    ensures
        r@.len() == families(hits@).len(),
        forall|i: int| 0 <= i < r@.len() ==> (chosen(hits@, #[trigger] families(hits@)[i]) matches Some(j) && *r@[i] == hits@[j]),
{
    let mut keys: Vec<Vec<char>> = Vec::new();
    let mut best: Vec<usize> = Vec::new();
    let mut i: usize = 0;
    while i < hits.len()
        invariant
            i <= hits.len(),
            keys@.len() == best@.len(),
            views(keys@) == families(hits@.take(i as int)),
            forall|g: int| 0 <= g < keys@.len() ==> chosen(hits@.take(i as int), #[trigger] keys@[g]@) == Some(best@[g] as int),
        decreases hits.len() - i,
    {
        let ghost pre = hits@.take(i as int);
        let ghost post = hits@.take(i + 1);
        assert(post.drop_last() =~= pre);
        assert(post.last() == hits@[i as int]);
        let key = family_key_exec(&hits[i]);
        let mut g: usize = 0;
        while g < keys.len()
            invariant
                g <= keys.len(),
                forall|x: int| 0 <= x < g ==> keys@[x]@ != key@,
            ensures
                g <= keys.len(),
                forall|x: int| 0 <= x < g ==> keys@[x]@ != key@,
                g < keys.len() ==> keys@[g as int]@ == key@,
            decreases keys.len() - g,
        {
            if chars_eq(keys[g].as_slice(), key.as_slice()) {
                break;
            }
            g += 1;
        }
        let found = g < keys.len();
        if found {
            let b = best[g];
            proof {
                lemma_chosen_in(pre, key@);
                assert(views(keys@)[g as int] == key@);
                assert(families(pre).contains(key@));
                assert forall|x: int| 0 <= x < keys@.len() && x != g implies keys@[x]@ != key@ by {
                    lemma_families_distinct(pre);
                    assert(views(keys@)[x] == keys@[x]@);
                }
            }
            if preferred_exec(&hits[i], &hits[b]) {
                best.set(g, i);
            }
        } else {
            proof {
                let gk = views(keys@);
                assert(!gk.contains(key@)) by {
                    if gk.contains(key@) {
                        let x = choose|x: int| 0 <= x < gk.len() && gk[x] == key@;
                        assert(keys@[x]@ == key@);
                    }
                }
                lemma_families_contains(pre, key@);
                lemma_chosen_in(pre, key@);
                if chosen(pre, key@) is Some {
                    let j = chosen(pre, key@)->0;
                    assert(family_key(pre[j]) == key@);
                }
            }
            keys.push(key);
            best.push(i);
            assert(views(keys@) =~= families(post));
        }
        i += 1;
    }
    assert(hits@.take(hits.len() as int) =~= hits@);
    let mut out: Vec<&SearchHit> = Vec::new();
    let mut g: usize = 0;
    while g < best.len()
        invariant
            g <= best.len(),
            keys@.len() == best@.len(),
            views(keys@) == families(hits@),
            forall|x: int| 0 <= x < keys@.len() ==> chosen(hits@, #[trigger] keys@[x]@) == Some(best@[x] as int),
            out@.len() == g,
            forall|x: int| 0 <= x < g ==> *out@[x] == hits@[best@[x] as int],
        decreases best.len() - g,
    {
        proof {
            lemma_chosen_in(hits@, keys@[g as int]@);
        }
        out.push(&hits[best[g]]);
        g += 1;
    }
    proof {
        assert forall|x: int| 0 <= x < out@.len() implies (chosen(hits@, #[trigger] families(hits@)[x]) matches Some(j) && *out@[x] == hits@[j]) by {
            assert(views(keys@)[x] == keys@[x]@);
        }
    }
    out
}

proof fn lemma_families_distinct(hits: Seq<SearchHit>)
    ensures
        forall|a: int, b: int| 0 <= a < b < families(hits).len() ==> families(hits)[a] != families(hits)[b],
    decreases hits.len(),
{
    if hits.len() > 0 {
        let d = hits.drop_last();
        lemma_families_distinct(d);
        let r = families(d);
        let x = family_key(hits.last());
        if !r.contains(x) {
            assert forall|a: int, b: int| 0 <= a < b < r.push(x).len() implies r.push(x)[a] != r.push(x)[b] by {
                if b == r.len() {
                    assert(r.push(x)[a] == r[a]);
                    if r[a] == x {
                        assert(r.contains(x));
                    }
                }
            }
        }
    }
}

proof fn lemma_families(hits: Seq<SearchHit>)
    ensures
        forall|i: int, j: int| 0 <= i < j < families(hits).len() ==> families(hits)[i] != families(hits)[j],
        forall|i: int| 0 <= i < hits.len() ==> families(hits).contains(family_key(#[trigger] hits[i])),
        forall|k: Seq<char>| #[trigger] families(hits).contains(k) ==> (chosen(hits, k) matches Some(j) && 0 <= j
            < hits.len() && family_key(hits[j]) == k && ((exists|i: int|
            0 <= i < hits.len() && family_key(#[trigger] hits[i]) == k && hits[i].has_english_abstract)
            ==> hits[j].has_english_abstract)),
        forall|k: Seq<char>| !families(hits).contains(k) ==> #[trigger] chosen(hits, k) is None,
    decreases hits.len(),
{
    if hits.len() > 0 {
        let pre = hits.drop_last();
        lemma_families(pre);
        let x = hits.last();
        let fx = family_key(x);
        let r = families(pre);
        let f = families(hits);
        assert forall|i: int| 0 <= i < hits.len() implies f.contains(family_key(#[trigger] hits[i])) by {
            if i < pre.len() {
                assert(hits[i] == pre[i]);
                assert(r.contains(family_key(pre[i])));
                let m = choose|m: int| 0 <= m < r.len() && r[m] == family_key(pre[i]);
                if !r.contains(fx) {
                    assert(f[m] == r[m]);
                }
            } else {
                assert(hits[i] == x);
                if !r.contains(fx) {
                    assert(f[r.len() as int] == fx);
                }
            }
        }
        assert forall|k: Seq<char>| #[trigger] f.contains(k) implies (chosen(hits, k) matches Some(j) && 0 <= j
            < hits.len() && family_key(hits[j]) == k && ((exists|i: int|
            0 <= i < hits.len() && family_key(#[trigger] hits[i]) == k && hits[i].has_english_abstract)
            ==> hits[j].has_english_abstract)) by {
            if k == fx {
                if let Some(j) = chosen(pre, k) {
                    assert(hits[j] == pre[j]);
                }
                let j = chosen(hits, k)->0;
                if exists|i: int| 0 <= i < hits.len() && family_key(#[trigger] hits[i]) == k && hits[i].has_english_abstract {
                    let i = choose|i: int| 0 <= i < hits.len() && family_key(#[trigger] hits[i]) == k && hits[i].has_english_abstract;
                    if i < pre.len() {
                        assert(pre[i] == hits[i]);
                        assert(r.contains(k));
                    }
                }
            } else {
                assert(r.contains(k)) by {
                    if !r.contains(k) {
                        let m = choose|m: int| 0 <= m < f.len() && f[m] == k;
                        if !r.contains(fx) {
                            if m < r.len() {
                                assert(f[m] == r[m]);
                            }
                        }
                    }
                }
                let j = chosen(pre, k)->0;
                assert(hits[j] == pre[j]);
                if exists|i: int| 0 <= i < hits.len() && family_key(#[trigger] hits[i]) == k && hits[i].has_english_abstract {
                    let i = choose|i: int| 0 <= i < hits.len() && family_key(#[trigger] hits[i]) == k && hits[i].has_english_abstract;
                    assert(i < pre.len());
                    assert(pre[i] == hits[i]);
                }
            }
        }
        assert forall|k: Seq<char>| !f.contains(k) implies #[trigger] chosen(hits, k) is None by {
            if k == fx {
                if !r.contains(fx) {
                    assert(f[r.len() as int] == fx);
                }
            } else {
                if r.contains(k) {
                    let m = choose|m: int| 0 <= m < r.len() && r[m] == k;
                    if !r.contains(fx) {
                        assert(f[m] == k);
                    }
                }
            }
        }
        if !r.contains(fx) {
            assert forall|i: int, j: int| 0 <= i < j < f.len() implies f[i] != f[j] by {
                if j == r.len() {
                    assert(f[i] == r[i]);
                }
            }
        }
    }
}

/// One result per family: each family of the hits is listed once, every
/// hit's family is listed, and each family's chosen hit belongs to it and
/// has an English abstract whenever any hit of the family has one.
pub proof fn law_one_per_family(hits: Seq<SearchHit>)
    ensures
        forall|i: int, j: int| 0 <= i < j < families(hits).len() ==> families(hits)[i] != families(hits)[j],
        forall|i: int| 0 <= i < hits.len() ==> families(hits).contains(family_key(#[trigger] hits[i])),
        forall|g: int|
            0 <= g < families(hits).len() ==> (chosen(hits, #[trigger] families(hits)[g]) matches Some(j) && 0 <= j
                < hits.len() && family_key(hits[j]) == families(hits)[g] && ((exists|i: int|
                0 <= i < hits.len() && family_key(#[trigger] hits[i]) == families(hits)[g]
                    && hits[i].has_english_abstract) ==> hits[j].has_english_abstract)),
{
    lemma_families(hits);
    assert forall|g: int| 0 <= g < families(hits).len() implies (chosen(hits, #[trigger] families(hits)[g]) matches Some(j) && 0 <= j
                < hits.len() && family_key(hits[j]) == families(hits)[g] && ((exists|i: int|
                0 <= i < hits.len() && family_key(#[trigger] hits[i]) == families(hits)[g]
                    && hits[i].has_english_abstract) ==> hits[j].has_english_abstract)) by {
        assert(families(hits).contains(families(hits)[g]));
    }
}

} // verus!
