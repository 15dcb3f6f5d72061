//! Library search: the query behind the filters, and the tag filters
//! applied to each document found.
use vstd::prelude::*;
use crate::text::{decimal, decimal_chars, join, push_str, str_eq, string_of, strs_view, trim, trim_str};

verus! {

#[derive(Debug, Clone)]
pub struct LibraryFilters {
    /// Full-text query over title and abstract; none or empty matches all.
    pub query: Option<String>,
    /// Documents must have a `pos` label for every tag listed here.
    pub include_tag_ids: Vec<i64>,
    /// Documents must have a `pos` label for none of the tags listed here.
    pub exclude_tag_ids: Vec<i64>,
    /// `"human" | "auto"`: documents with a label from this source.
    pub label_source: Option<String>,
    /// `"validated" | "auto_completed" | "queued" | "skipped"`.
    pub review_state: Option<String>,
    /// `"available" | "unavailable"`.
    pub fulltext_availability: Option<String>,
    /// `"available" | "unavailable"`.
    pub drawings_availability: Option<String>,
}

#[derive(Debug, Clone, PartialEq)]
pub struct LibraryRow {
    pub id: i64,
    pub pub_key: String,
    pub title: Option<String>,
    pub review_state: String,
    pub tags: Vec<String>,
}


broadcast use vstd::string::group_string_axioms;

/// An SQL statement with its `?N` parameters, bound in order.
#[derive(Debug, Clone, PartialEq)]
pub struct LibraryQuery {
    pub sql: String,
    pub binds: Vec<String>,
}

/// A condition that names parameter `n`.
pub open spec fn with_param(text: Seq<char>, n: nat) -> Seq<char> {
    text + seq!['?'] + decimal(n)
}

pub const FULLTEXT_EXISTS: &'static str =
    "EXISTS (SELECT 1 FROM fulltext ft WHERE ft.doc_id = d.id AND ft.status IN ('fetched', 'non_english_only'))";

pub const DRAWINGS_EXISTS: &'static str =
    "EXISTS (SELECT 1 FROM drawings_status ds WHERE ds.doc_id = d.id AND ds.status = 'fetched')";

/// `exists`, or its negation unless `available`.
pub open spec fn availability(wanted: Seq<char>, exists: Seq<char>) -> Seq<char> {
    if wanted == "available"@ {
        exists
    } else {
        "NOT "@ + exists
    }
}

/// The conditions and the parameters of the search, the text query (when
/// it is not blank) first, then the label source, the review state, and
/// the full-text and drawings availability; only the fetched documents.
pub open spec fn search_parts(f: LibraryFilters) -> (Seq<Seq<char>>, Seq<Seq<char>>, bool) {
    let base: Seq<Seq<char>> = seq!["d.fetch_status = 'fetched'"@];
    let text_query = match f.query {
        Some(q) => trim(q@).len() > 0,
        None => false,
    };
    let (c1, b1) = if text_query {
        (base.push(with_param("documents_fts MATCH "@, 1)), seq![f.query->0@])
    } else {
        (base, Seq::empty())
    };
    let (c2, b2) = match f.label_source {
        Some(src) => {
            let b = b1.push(if src@ == "auto"@ { "auto"@ } else { "human"@ });
            (
                c1.push(
                    with_param("EXISTS (SELECT 1 FROM labels l WHERE l.doc_id = d.id AND l.source = "@, b.len())
                        + ")"@,
                ),
                b,
            )
        },
        None => (c1, b1),
    };
    let (c3, b3) = match f.review_state {
        Some(state) => {
            let b = b2.push(state@);
            (c2.push(with_param("d.review_state = "@, b.len())), b)
        },
        None => (c2, b2),
    };
    let c4 = match f.fulltext_availability {
        Some(a) => c3.push(availability(a@, FULLTEXT_EXISTS@)),
        None => c3,
    };
    let c5 = match f.drawings_availability {
        Some(a) => c4.push(availability(a@, DRAWINGS_EXISTS@)),
        None => c4,
    };
    (c5, b3, text_query)
}

/// The statement: the documents matching every condition, newest first.
pub open spec fn search_sql(f: LibraryFilters) -> Seq<char> {
    let (conditions, _, text_query) = search_parts(f);
    "SELECT DISTINCT d.id, d.pub_key, d.title, d.review_state FROM documents d"@ + (if text_query {
        " JOIN documents_fts fts ON fts.rowid = d.id"@
    } else {
        Seq::empty()
    }) + " WHERE "@ + join(conditions, " AND "@) + " ORDER BY d.id DESC"@
}

fn push_param(out: &mut String, text: &str, n: usize)
    ensures
        final(out)@ == old(out)@ + with_param(text@, n as nat),
{
    push_str(out, text);
    push_str(out, "?");
    proof {
        reveal_strlit("?");
    }
    push_str(out, string_of(decimal_chars(n as u64).as_slice()).as_str());
}

fn availability_exec(wanted: &str, exists: &str) -> (r: String)
    ensures
        r@ == availability(wanted@, exists@),
{
    if str_eq(wanted, "available") {
        exists.to_owned()
    } else {
        let mut out = "NOT ".to_owned();
        push_str(&mut out, exists);
        out
    }
}

/// The statement and parameters that find the documents matching the
/// filters other than the tag ones (`passes_tag_filters` applies those to
/// each document found). Filter values are parameters, never part of the
/// statement's text.
pub fn search_query(filters: &LibraryFilters) -> (r: LibraryQuery)
    ensures
        r.sql@ == search_sql(*filters),
        strs_view(r.binds@) == search_parts(*filters).1,
{
    let mut sql = "SELECT DISTINCT d.id, d.pub_key, d.title, d.review_state FROM documents d".to_owned();
    let mut conditions: Vec<String> = Vec::new();
    conditions.push("d.fetch_status = 'fetched'".to_owned());
    let mut binds: Vec<String> = Vec::new();
    let text_query = match &filters.query {
        Some(q) => {
            let t = trim_str(q.as_str());
            !t.is_empty()
        },
        None => false,
    };
    if text_query {
        match &filters.query {
            Some(q) => {
                push_str(&mut sql, " JOIN documents_fts fts ON fts.rowid = d.id");
                binds.push(q.clone());
                let mut c = String::new();
                push_param(&mut c, "documents_fts MATCH ", binds.len());
                conditions.push(c);
            },
            None => {},
        }
    }
    if let Some(source) = &filters.label_source {
        if str_eq(source.as_str(), "auto") {
            binds.push("auto".to_owned());
        } else {
            binds.push("human".to_owned());
        }
        let mut c = String::new();
        push_param(&mut c, "EXISTS (SELECT 1 FROM labels l WHERE l.doc_id = d.id AND l.source = ", binds.len());
        push_str(&mut c, ")");
        conditions.push(c);
    }
    if let Some(state) = &filters.review_state {
        binds.push(state.clone());
        let mut c = String::new();
        push_param(&mut c, "d.review_state = ", binds.len());
        conditions.push(c);
    }
    if let Some(a) = &filters.fulltext_availability {
        conditions.push(availability_exec(a.as_str(), FULLTEXT_EXISTS));
    }
    if let Some(a) = &filters.drawings_availability {
        conditions.push(availability_exec(a.as_str(), DRAWINGS_EXISTS));
    }
    assert(strs_view(conditions@) =~= search_parts(*filters).0);
    assert(strs_view(binds@) =~= search_parts(*filters).1);
    push_str(&mut sql, " WHERE ");
    push_str(&mut sql, crate::text::join_strings(conditions.as_slice(), " AND ").as_str());
    push_str(&mut sql, " ORDER BY d.id DESC");
    LibraryQuery { sql, binds }
}

/// Whether a document with the `pos` labels `pos_tag_ids` passes the tag
/// filters: a `pos` label for every included tag and for no excluded one.
pub fn passes_tag_filters(filters: &LibraryFilters, pos_tag_ids: &[i64]) -> (r: bool)
    ensures
        r == ((forall|i: int| 0 <= i < filters.include_tag_ids@.len() ==> pos_tag_ids@.contains(
            #[trigger] filters.include_tag_ids@[i],
        )) && (forall|i: int| 0 <= i < filters.exclude_tag_ids@.len() ==> !pos_tag_ids@.contains(
            #[trigger] filters.exclude_tag_ids@[i],
        ))),
{
    let mut i: usize = 0;
    while i < filters.include_tag_ids.len()
        invariant
            i <= filters.include_tag_ids@.len(),
            forall|k: int| 0 <= k < i ==> pos_tag_ids@.contains(#[trigger] filters.include_tag_ids@[k]),
        decreases filters.include_tag_ids.len() - i,
    {
        if !contains_id(pos_tag_ids, filters.include_tag_ids[i]) {
            return false;
        }
        i += 1;
    }
    let mut j: usize = 0;
    while j < filters.exclude_tag_ids.len()
        invariant
            j <= filters.exclude_tag_ids@.len(),
            forall|k: int| 0 <= k < filters.include_tag_ids@.len() ==> pos_tag_ids@.contains(
                #[trigger] filters.include_tag_ids@[k],
            ),
            forall|k: int| 0 <= k < j ==> !pos_tag_ids@.contains(#[trigger] filters.exclude_tag_ids@[k]),
        decreases filters.exclude_tag_ids.len() - j,
    {
        if contains_id(pos_tag_ids, filters.exclude_tag_ids[j]) {
            return false;
        }
        j += 1;
    }
    true
}

fn contains_id(ids: &[i64], x: i64) -> (r: bool)
    ensures
        r == ids@.contains(x),
{
    let mut i: usize = 0;
    while i < ids.len()
        invariant
            i <= ids@.len(),
            forall|k: int| 0 <= k < i ==> ids@[k] != x,
        decreases ids.len() - i,
    {
        if ids[i] == x {
            return true;
        }
        i += 1;
    }
    false
}

} // verus!
