//! Export formats: CSV rows, the per-document `.txt` file, and folder names
//! for the by-tag document export. Gathering the data and writing files is
//! left to the caller.
use vstd::prelude::*;
use std::collections::HashMap;
use crate::domain::annotations::Annotation;
use crate::domain::documents::DocumentDetail;
use crate::text::{
    chars_eq_str, control, decimal, digit, find_char, find_char_exec, is_control, slice_vec, trim,
    trim_bounds, unicode_lowercase, to_lowercase, upper_all, upper_seq, is_digit,
    chars_of, join, join_strings, normalise_range, normalise_ws, push_char, push_str, split_chars,
    split_on, string_of, strs_view, trim_end, trim_end_index, trim_start, views,
};

verus! {

broadcast use vstd::string::group_string_axioms;

#[derive(Debug, Clone, PartialEq)]
pub struct ExportRow {
    pub pub_key: String,
    pub title: Option<String>,
    pub tags: Vec<String>,
    pub sources: Vec<String>,
    /// View-screen highlights, in reading order. Not part of the CSV.
    pub highlights: Vec<ExportHighlight>,
}

#[derive(Debug, Clone, PartialEq)]
pub struct ExportHighlight {
    pub section: String,
    pub location: String,
    pub quote: String,
    pub comment: Option<String>,
    pub color: String,
    /// The quote is no longer in the stored text.
    pub detached: bool,
    pub created_at: String,
}

impl From<Annotation> for ExportHighlight {
    fn from(a: Annotation) -> (r: Self) {
        ExportHighlight {
            section: a.section,
            location: a.location,
            quote: a.quote,
            comment: a.comment,
            color: a.color,
            detached: a.detached,
            created_at: a.created_at,
        }
    }
}

impl vstd::std_specs::convert::FromSpecImpl<Annotation> for ExportHighlight {
    open spec fn obeys_from_spec() -> bool {
        true
    }

    open spec fn from_spec(a: Annotation) -> ExportHighlight {
        ExportHighlight {
            section: a.section,
            location: a.location,
            quote: a.quote,
            comment: a.comment,
            color: a.color,
            detached: a.detached,
            created_at: a.created_at,
        }
    }
}

/// The sources a document's export row names: its abstract's source
/// publication, when it has one.
pub fn abstract_sources(abstract_source: Option<&str>) -> (r: Vec<String>)
    ensures
        match abstract_source {
            Some(s) => strs_view(r@) == seq!["abstract "@ + s@],
            None => r@.len() == 0,
        },
{
    match abstract_source {
        Some(s) => {
            let mut t = "abstract ".to_owned();
            push_str(&mut t, s);
            let mut v: Vec<String> = Vec::new();
            v.push(t);
            assert(strs_view(v@) =~= seq!["abstract "@ + s@]);
            v
        },
        None => Vec::new(),
    }
}

// ---------------------------------------------------------------------------
// CSV
// ---------------------------------------------------------------------------

/// `s` with every double quote doubled.
pub open spec fn double_quotes(s: Seq<char>) -> Seq<char>
    decreases s.len(),
{
    if s.len() == 0 {
        s
    } else {
        double_quotes(s.drop_last()) + if s.last() == '"' {
            seq!['"', '"']
        } else {
            seq![s.last()]
        }
    }
}

/// A CSV field: quoted, with its quotes doubled, when it holds a comma, a
/// double quote or a line break; as it is otherwise.
pub open spec fn csv_field_model(v: Seq<char>) -> Seq<char> {
    if v.contains(',') || v.contains('"') || v.contains('\n') {
        seq!['"'] + double_quotes(v) + seq!['"']
    } else {
        v
    }
}

/// How a CSV reader takes a field back: a field in double quotes loses
/// them and has each doubled quote inside read as one; any other field is
/// read as it stands.
pub open spec fn read_csv_field(f: Seq<char>) -> Seq<char> {
    if f.len() >= 2 && f[0] == '"' && f.last() == '"' {
        undouble_quotes(f.subrange(1, f.len() - 1))
    } else {
        f
    }
}

/// The inside of a quoted field read from the front: `""` is one quote.
pub open spec fn undouble_quotes(s: Seq<char>) -> Seq<char>
    decreases s.len(),
{
    if s.len() == 0 {
        s
    } else if s.len() >= 2 && s[0] == '"' && s[1] == '"' {
        seq!['"'] + undouble_quotes(s.skip(2))
    } else {
        seq![s[0]] + undouble_quotes(s.skip(1))
    }
}

proof fn lemma_double_quotes_concat(a: Seq<char>, b: Seq<char>)
    ensures
        double_quotes(a + b) == double_quotes(a) + double_quotes(b),
    decreases b.len(),
{
    if b.len() == 0 {
        assert(a + b =~= a);
        assert(double_quotes(a) + double_quotes(b) =~= double_quotes(a));
    } else {
        lemma_double_quotes_concat(a, b.drop_last());
        assert((a + b).drop_last() =~= a + b.drop_last());
        assert((a + b).last() == b.last());
        let e = if b.last() == '"' {
            seq!['"', '"']
        } else {
            seq![b.last()]
        };
        assert(double_quotes(a) + double_quotes(b.drop_last()) + e =~= double_quotes(a) + (double_quotes(
            b.drop_last(),
        ) + e));
    }
}

proof fn lemma_undouble_double(v: Seq<char>)
    ensures
        undouble_quotes(double_quotes(v)) == v,
    decreases v.len(),
{
    if v.len() > 0 {
        let c = v[0];
        let rest = v.skip(1);
        assert(v =~= seq![c] + rest);
        lemma_double_quotes_concat(seq![c], rest);
        assert(seq![c].drop_last() =~= Seq::<char>::empty());
        assert(double_quotes(Seq::<char>::empty()) == Seq::<char>::empty());
        lemma_undouble_double(rest);
        let d = double_quotes(v);
        if c == '"' {
            assert(double_quotes(seq![c]) =~= seq!['"', '"']);
            assert(d =~= seq!['"', '"'] + double_quotes(rest));
            assert(d.skip(2) =~= double_quotes(rest));
            assert(undouble_quotes(d) == seq!['"'] + undouble_quotes(d.skip(2)));
        } else {
            assert(double_quotes(seq![c]) =~= seq![c]);
            assert(d =~= seq![c] + double_quotes(rest));
            assert(d.skip(1) =~= double_quotes(rest));
            assert(d[0] == c);
            assert(undouble_quotes(d) == seq![d[0]] + undouble_quotes(d.skip(1)));
        }
        assert(seq![c] + rest =~= v);
    }
}

/// A CSV field reads back as the value it was written from: whatever
/// commas, quotes or line breaks the value holds, a reader recovers it.
pub proof fn law_csv_field_reads_back(v: Seq<char>)
    ensures
        read_csv_field(csv_field_model(v)) == v,
{
    if v.contains(',') || v.contains('"') || v.contains('\n') {
        let f = seq!['"'] + double_quotes(v) + seq!['"'];
        assert(f.subrange(1, f.len() - 1) =~= double_quotes(v));
        lemma_undouble_double(v);
    } else {
        if v.len() >= 2 && v[0] == '"' {
            assert(v.contains('"'));
        }
    }
}

/// How a CSV reader splits a record (a line without its line break) into
/// fields before reading each: at every comma outside double quotes.
/// `quoted` says whether the scan stands inside quotes, `cur` is the field
/// read so far.
pub open spec fn csv_split(s: Seq<char>, quoted: bool, cur: Seq<char>) -> Seq<Seq<char>>
    decreases s.len(),
{
    if s.len() == 0 {
        seq![cur]
    } else if s[0] == ',' && !quoted {
        seq![cur] + csv_split(s.skip(1), false, Seq::empty())
    } else {
        csv_split(
            s.skip(1),
            if s[0] == '"' {
                !quoted
            } else {
                quoted
            },
            cur.push(s[0]),
        )
    }
}

/// The values a CSV reader takes from a record.
pub open spec fn read_csv_record(line: Seq<char>) -> Seq<Seq<char>> {
    csv_split(line, false, Seq::empty()).map_values(|f: Seq<char>| read_csv_field(f))
}

/// Whether the scan is inside quotes after `a`, starting as `q` says.
spec fn quoted_after(a: Seq<char>, q: bool) -> bool
    decreases a.len(),
{
    if a.len() == 0 {
        q
    } else {
        quoted_after(
            a.skip(1),
            if a[0] == '"' {
                !q
            } else {
                q
            },
        )
    }
}

/// No comma of `a` stands outside quotes, the scan starting as `q` says.
spec fn no_free_comma(a: Seq<char>, q: bool) -> bool
    decreases a.len(),
{
    a.len() == 0 || (!(a[0] == ',' && !q) && no_free_comma(
        a.skip(1),
        if a[0] == '"' {
            !q
        } else {
            q
        },
    ))
}

proof fn lemma_split_through(a: Seq<char>, b: Seq<char>, q: bool, cur: Seq<char>)
    requires
        no_free_comma(a, q),
    ensures
        csv_split(a + b, q, cur) == csv_split(b, quoted_after(a, q), cur + a),
    decreases a.len(),
{
    if a.len() == 0 {
        assert(a + b =~= b);
        assert(cur + a =~= cur);
    } else {
        let q2 = if a[0] == '"' {
            !q
        } else {
            q
        };
        assert((a + b)[0] == a[0]);
        assert((a + b).skip(1) =~= a.skip(1) + b);
        lemma_split_through(a.skip(1), b, q2, cur.push(a[0]));
        assert(cur.push(a[0]) + a.skip(1) =~= cur + a);
    }
}

proof fn lemma_scan_concat(x: Seq<char>, y: Seq<char>, q: bool)
    ensures
        no_free_comma(x + y, q) == (no_free_comma(x, q) && no_free_comma(y, quoted_after(x, q))),
        quoted_after(x + y, q) == quoted_after(y, quoted_after(x, q)),
    decreases x.len(),
{
    if x.len() == 0 {
        assert(x + y =~= y);
    } else {
        let q2 = if x[0] == '"' {
            !q
        } else {
            q
        };
        assert((x + y)[0] == x[0]);
        assert((x + y).skip(1) =~= x.skip(1) + y);
        lemma_scan_concat(x.skip(1), y, q2);
    }
}

proof fn lemma_scan_quoted_inside(v: Seq<char>)
    ensures
        no_free_comma(double_quotes(v), true),
        quoted_after(double_quotes(v), true),
    decreases v.len(),
{
    if v.len() > 0 {
        lemma_scan_quoted_inside(v.drop_last());
        let d = double_quotes(v.drop_last());
        let e = if v.last() == '"' {
            seq!['"', '"']
        } else {
            seq![v.last()]
        };
        lemma_scan_concat(d, e, true);
        assert(double_quotes(v) == d + e);
        if v.last() == '"' {
            assert(e.skip(1) =~= seq!['"']);
            assert(e.skip(1).skip(1) =~= Seq::<char>::empty());
            assert(no_free_comma(e.skip(1).skip(1), true) && quoted_after(e.skip(1).skip(1), true));
            assert(no_free_comma(e.skip(1), false) && quoted_after(e.skip(1), false));
            assert(no_free_comma(e, true) && quoted_after(e, true));
        } else {
            assert(e.skip(1) =~= Seq::<char>::empty());
            assert(no_free_comma(e.skip(1), true) && quoted_after(e.skip(1), true));
            assert(no_free_comma(e, true) && quoted_after(e, true));
        }
    }
}

proof fn lemma_scan_plain(a: Seq<char>, q: bool)
    requires
        !a.contains(','),
        !a.contains('"'),
    ensures
        no_free_comma(a, q),
        quoted_after(a, q) == q,
    decreases a.len(),
{
    if a.len() > 0 {
        assert(a[0] != ',' && a[0] != '"') by {
            if a[0] == ',' || a[0] == '"' {
                assert(a.contains(a[0]));
            }
        }
        assert(!a.skip(1).contains(',') && !a.skip(1).contains('"')) by {
            if a.skip(1).contains(',') {
                let k = choose|k: int| 0 <= k < a.skip(1).len() && a.skip(1)[k] == ',';
                assert(a[k + 1] == ',');
            }
            if a.skip(1).contains('"') {
                let k = choose|k: int| 0 <= k < a.skip(1).len() && a.skip(1)[k] == '"';
                assert(a[k + 1] == '"');
            }
        }
        lemma_scan_plain(a.skip(1), q);
    }
}

/// A written field holds no comma outside quotes and leaves the scan
/// outside quotes.
proof fn lemma_scan_field(v: Seq<char>)
    ensures
        no_free_comma(csv_field_model(v), false),
        !quoted_after(csv_field_model(v), false),
{
    if v.contains(',') || v.contains('"') || v.contains('\n') {
        let d = double_quotes(v);
        lemma_scan_quoted_inside(v);
        lemma_scan_concat(seq!['"'], d, false);
        lemma_scan_concat(seq!['"'] + d, seq!['"'], false);
        let qt = seq!['"'];
        assert(qt.skip(1) =~= Seq::<char>::empty());
        assert(no_free_comma(qt.skip(1), true) && quoted_after(qt.skip(1), true) == true);
        assert(no_free_comma(qt, false) && quoted_after(qt, false) == true);
        assert(no_free_comma(qt.skip(1), false) && quoted_after(qt.skip(1), false) == false);
        assert(no_free_comma(qt, true) && quoted_after(qt, true) == false);
        assert(csv_field_model(v) == qt + d + qt);
    } else {
        lemma_scan_plain(v, false);
    }
}

/// A field written before a comma (or the end) splits off as itself.
proof fn lemma_split_field(v: Seq<char>, rest: Seq<char>)
    ensures
        csv_split(csv_field_model(v) + (seq![','] + rest), false, Seq::empty()) == seq![csv_field_model(v)]
            + csv_split(rest, false, Seq::empty()),
        csv_split(csv_field_model(v), false, Seq::empty()) == seq![csv_field_model(v)],
{
    let f = csv_field_model(v);
    lemma_scan_field(v);
    lemma_split_through(f, seq![','] + rest, false, Seq::empty());
    lemma_split_through(f, Seq::empty(), false, Seq::empty());
    assert(Seq::<char>::empty() + f =~= f);
    assert(f + Seq::<char>::empty() =~= f);
    assert((seq![','] + rest)[0] == ',');
    assert((seq![','] + rest).skip(1) =~= rest);
}

/// A CSV line of the export reads back as its four columns: the number,
/// the title (empty without one), the tags and the sources, each list
/// joined with `; `.
pub proof fn law_csv_line_reads_back(r: ExportRow)
    ensures
        csv_line(r).len() > 0,
        csv_line(r).last() == '\n',
        read_csv_record(csv_line(r).drop_last()) == seq![
            r.pub_key@,
            opt_or_empty(r.title),
            join(strs_view(r.tags@), "; "@),
            join(strs_view(r.sources@), "; "@),
        ],
{
    let v1 = r.pub_key@;
    let v2 = opt_or_empty(r.title);
    let v3 = join(strs_view(r.tags@), "; "@);
    let v4 = join(strs_view(r.sources@), "; "@);
    let f1 = csv_field_model(v1);
    let f2 = csv_field_model(v2);
    let f3 = csv_field_model(v3);
    let f4 = csv_field_model(v4);
    let c = seq![','];
    let line = csv_line(r);
    assert(line == f1 + c + f2 + c + f3 + c + f4 + seq!['\n']);
    assert(line.drop_last() =~= f1 + (c + (f2 + (c + (f3 + (c + f4))))));
    lemma_split_field(v1, f2 + (c + (f3 + (c + f4))));
    lemma_split_field(v2, f3 + (c + f4));
    lemma_split_field(v3, f4);
    lemma_split_field(v4, Seq::empty());
    let parts = csv_split(line.drop_last(), false, Seq::empty());
    assert(parts =~= seq![f1, f2, f3, f4]);
    law_csv_field_reads_back(v1);
    law_csv_field_reads_back(v2);
    law_csv_field_reads_back(v3);
    law_csv_field_reads_back(v4);
    assert(read_csv_record(line.drop_last()) =~= seq![v1, v2, v3, v4]);
}

pub fn csv_field(value: &str) -> (r: String)
    ensures
        r@ == csv_field_model(value@),
{
    let v = chars_of(value);
    let mut special = false;
    let mut i: usize = 0;
    while i < v.len()
        invariant
            i <= v.len(),
            special == (v@.take(i as int).contains(',') || v@.take(i as int).contains('"') || v@.take(
                i as int,
            ).contains('\n')),
        decreases v.len() - i,
    {
        let ghost p = v@.take(i as int);
        let ghost q = v@.take(i + 1);
        assert(q =~= p.push(v@[i as int]));
        assert(forall|c: char| q.contains(c) <==> (p.contains(c) || v@[i as int] == c)) by {
            assert forall|c: char| q.contains(c) implies (p.contains(c) || v@[i as int] == c) by {
                let k = choose|k: int| 0 <= k < q.len() && q[k] == c;
                if k < i {
                    assert(p[k] == c);
                }
            }
            assert forall|c: char| p.contains(c) implies q.contains(c) by {
                let k = choose|k: int| 0 <= k < p.len() && p[k] == c;
                assert(q[k] == c);
            }
            assert(q[i as int] == v@[i as int]);
        }
        if v[i] == ',' || v[i] == '"' || v[i] == '\n' {
            special = true;
        }
        i += 1;
    }
    assert(v@.take(v.len() as int) =~= v@);
    if !special {
        return value.to_owned();
    }
    let mut out = String::new();
    push_char(&mut out, '"');
    let mut k: usize = 0;
    while k < v.len()
        invariant
            k <= v.len(),
            out@ == seq!['"'] + double_quotes(v@.take(k as int)),
        decreases v.len() - k,
    {
        assert(v@.take(k + 1).drop_last() =~= v@.take(k as int));
        if v[k] == '"' {
            push_char(&mut out, '"');
            push_char(&mut out, '"');
        } else {
            push_char(&mut out, v[k]);
        }
        assert(out@ =~= seq!['"'] + double_quotes(v@.take(k + 1)));
        k += 1;
    }
    push_char(&mut out, '"');
    assert(out@ =~= seq!['"'] + double_quotes(v@) + seq!['"']);
    out
}

pub open spec fn opt_or_empty(o: Option<String>) -> Seq<char> {
    match o {
        Some(s) => s@,
        None => Seq::empty(),
    }
}

/// One CSV line of a row: number, title, tags and sources.
pub open spec fn csv_line(r: ExportRow) -> Seq<char> {
    csv_field_model(r.pub_key@) + seq![','] + csv_field_model(opt_or_empty(r.title)) + seq![','] + csv_field_model(
        join(strs_view(r.tags@), "; "@),
    ) + seq![','] + csv_field_model(join(strs_view(r.sources@), "; "@)) + seq!['\n']
}

pub open spec fn csv_body(rows: Seq<ExportRow>) -> Seq<char>
    decreases rows.len(),
{
    if rows.len() == 0 {
        Seq::empty()
    } else {
        csv_body(rows.drop_last()) + csv_line(rows.last())
    }
}

fn csv_line_exec(row: &ExportRow) -> (r: String)
    ensures
        r@ == csv_line(*row),
        r@.len() > 0 && r@.last() == '\n',
        read_csv_record(r@.drop_last()) == seq![
            row.pub_key@,
            opt_or_empty(row.title),
            join(strs_view(row.tags@), "; "@),
            join(strs_view(row.sources@), "; "@),
        ],
{
    let mut out = csv_field(row.pub_key.as_str());
    push_char(&mut out, ',');
    let title = match &row.title {
        Some(t) => csv_field(t.as_str()),
        None => csv_field(""),
    };
    proof {
        reveal_strlit("");
    }
    push_str(&mut out, title.as_str());
    push_char(&mut out, ',');
    push_str(&mut out, csv_field(join_strings(row.tags.as_slice(), "; ").as_str()).as_str());
    push_char(&mut out, ',');
    push_str(&mut out, csv_field(join_strings(row.sources.as_slice(), "; ").as_str()).as_str());
    push_char(&mut out, '\n');
    proof {
        law_csv_line_reads_back(*row);
        assert(out@ == csv_line(*row));
    }
    out
}

/// The rows as CSV, with a header line; highlights are not part of it.
pub fn to_csv(rows: &[ExportRow]) -> (r: String)
    ensures
        r@ == "publication_number,title,tags,sources\n"@ + csv_body(rows@),
{
    let mut out = "publication_number,title,tags,sources\n".to_owned();
    let mut i: usize = 0;
    assert(rows@.take(0) =~= Seq::<ExportRow>::empty());
    while i < rows.len()
        invariant
            i <= rows.len(),
            out@ == "publication_number,title,tags,sources\n"@ + csv_body(rows@.take(i as int)),
        decreases rows.len() - i,
    {
        assert(rows@.take(i + 1).drop_last() =~= rows@.take(i as int));
        let line = csv_line_exec(&rows[i]);
        push_str(&mut out, line.as_str());
        assert(out@ =~= "publication_number,title,tags,sources\n"@ + csv_body(rows@.take(i + 1)));
        i += 1;
    }
    assert(rows@.take(rows.len() as int) =~= rows@);
    out
}


// ---------------------------------------------------------------------------
// The per-document text file
// ---------------------------------------------------------------------------

/// Full text data for one document's export. `status` is that of the
/// retrieval: `fetched`, `non_english_only`, `not_available`, `error` or
/// `pending`.
#[derive(Debug, Clone, PartialEq)]
pub struct DocumentExportFulltext {
    pub status: String,
    pub description: Option<String>,
    pub claims: Option<String>,
    pub lang: Option<String>,
    pub source: Option<String>,
}

impl Default for DocumentExportFulltext {
    fn default() -> (r: Self)
        ensures
            r.status@ == Seq::<char>::empty(),
            r.description is None,
            r.claims is None,
            r.lang is None,
            r.source is None,
    {
        DocumentExportFulltext {
            status: String::new(),
            description: None,
            claims: None,
            lang: None,
            source: None,
        }
    }
}

/// Drawings data for one document's export.
#[derive(Debug, Clone, PartialEq)]
pub struct DocumentExportDrawings {
    pub status: String,
    /// Relative paths as written under the export folder, in page order.
    pub page_paths: Vec<String>,
    pub source: Option<String>,
}

impl Default for DocumentExportDrawings {
    fn default() -> (r: Self)
        ensures
            r.status@ == Seq::<char>::empty(),
            r.page_paths@.len() == 0,
            r.source is None,
    {
        DocumentExportDrawings { status: String::new(), page_paths: Vec::new(), source: None }
    }
}

pub open spec fn or_text(o: Option<String>, none: Seq<char>) -> Seq<char> {
    match o {
        Some(s) => s@,
        None => none,
    }
}

/// The texts joined with `sep`, or `none` when there are none.
pub open spec fn list_or(v: Seq<String>, sep: Seq<char>, none: Seq<char>) -> Seq<char> {
    if v.len() == 0 {
        none
    } else {
        join(strs_view(v), sep)
    }
}

/// Where the document's parts came from.
pub open spec fn sources_model(
    d: DocumentDetail,
    ft: Option<&DocumentExportFulltext>,
    dr: Option<&DocumentExportDrawings>,
) -> Seq<Seq<char>> {
    let a = match d.abstract_source {
        Some(s) => seq!["abstract "@ + s@],
        None => Seq::empty(),
    };
    let f = match ft {
        Some(x) => match x.source {
            Some(s) => seq!["full text "@ + s@],
            None => Seq::empty(),
        },
        None => Seq::empty(),
    };
    let g = match dr {
        Some(x) => match x.source {
            Some(s) => seq!["drawings "@ + s@],
            None => Seq::empty(),
        },
        None => Seq::empty(),
    };
    a + f + g
}

/// The header lines of the text file.
pub open spec fn header_model(
    d: DocumentDetail,
    tags: Seq<String>,
    ft: Option<&DocumentExportFulltext>,
    dr: Option<&DocumentExportDrawings>,
) -> Seq<char> {
    let kinds = if d.kind_codes@.len() == 0 {
        Seq::empty()
    } else {
        " ("@ + join(strs_view(d.kind_codes@), ", "@) + ")"@
    };
    let sources = sources_model(d, ft, dr);
    "Publication: "@ + d.pub_key@ + kinds + "\n"@ + "Title: "@ + or_text(d.title, "Not available"@) + "\n"@
        + "Applicants: "@ + list_or(d.applicants@, "; "@, "Not available"@) + "\n"@ + "Publication date: "@
        + or_text(d.publication_date, "Not available"@) + "\n"@ + "CPC: "@ + list_or(
        d.cpc@,
        ", "@,
        "Not available"@,
    ) + "\n"@ + "Tags: "@ + list_or(tags, "; "@, "None"@) + "\n"@ + "Sources: "@ + (if sources.len() == 0 {
        "None"@
    } else {
        join(sources, "; "@)
    }) + "\n"@
}

/// One part of the full text (`part`, taken off the retrieved data), or
/// what stands in its place; `label` names the part.
pub open spec fn part_model(ft: Option<&DocumentExportFulltext>, part: Option<String>, label: Seq<char>) -> Seq<
    char,
> {
    match ft {
        None => label + " not retrieved.\n"@,
        Some(f) => if f.status@ == "not_available"@ {
            "Full text not available in OPS.\n"@
        } else if f.status@ == "error"@ {
            "Full text retrieval failed.\n"@
        } else if f.status@ == "fetched"@ || f.status@ == "non_english_only"@ {
            match part {
                Some(t) => (if f.status@ == "non_english_only"@ {
                    "[Non-English text, language: "@ + or_text(f.lang, "unknown"@) + "]\n"@
                } else {
                    Seq::empty()
                }) + t@ + "\n"@,
                None => label + " not available for this publication.\n"@,
            }
        } else {
            label + " not retrieved.\n"@
        },
    }
}

/// Each text followed by a line break.
pub open spec fn lines_of(v: Seq<Seq<char>>) -> Seq<char>
    decreases v.len(),
{
    if v.len() == 0 {
        Seq::empty()
    } else {
        lines_of(v.drop_last()) + v.last() + "\n"@
    }
}

/// The drawings part: the page files, or what stands in their place.
pub open spec fn drawings_model(dr: Option<&DocumentExportDrawings>) -> Seq<char> {
    match dr {
        None => "Drawings not retrieved.\n"@,
        Some(d) => if d.status@ == "fetched"@ && d.page_paths@.len() > 0 {
            lines_of(strs_view(d.page_paths@))
        } else if d.status@ == "not_available"@ {
            "This publication has no drawings.\n"@
        } else if d.status@ == "error"@ {
            "Drawings retrieval failed.\n"@
        } else {
            "Drawings not retrieved.\n"@
        },
    }
}

/// std `str::lines`: the text split at line feeds, without a last empty
/// line (a carriage return before a line feed is dropped as whitespace by
/// every caller here).
pub open spec fn lines_model(c: Seq<char>) -> Seq<Seq<char>> {
    let p = split_on(c, '\n');
    if p.len() > 0 && p.last().len() == 0 {
        p.drop_last()
    } else {
        p
    }
}

/// A comment's lines, the first after `  Comment: `, the others indented
/// to match, each without trailing whitespace.
pub open spec fn comment_lines(ls: Seq<Seq<char>>) -> Seq<char>
    decreases ls.len(),
{
    if ls.len() == 0 {
        Seq::empty()
    } else {
        comment_lines(ls.drop_last()) + (if ls.len() == 1 {
            "  Comment: "@
        } else {
            "           "@
        }) + trim_end(ls.last()) + "\n"@
    }
}

/// `Claim 1 (yellow): "quote"`, then the comment indented below it; line
/// breaks and runs of whitespace inside the quote become single spaces.
pub open spec fn highlight_model(h: Annotation) -> Seq<char> {
    h.location@ + " ("@ + h.color@ + (if h.detached {
        ", passage no longer in the text"@
    } else {
        Seq::empty()
    }) + "): \""@ + normalise_ws(h.quote@) + "\"\n"@ + match h.comment {
        Some(c) => comment_lines(lines_model(c@)),
        None => Seq::empty(),
    }
}

pub open spec fn highlights_body(hs: Seq<Annotation>) -> Seq<char>
    decreases hs.len(),
{
    if hs.len() == 0 {
        Seq::empty()
    } else {
        highlights_body(hs.drop_last()) + highlight_model(hs.last())
    }
}

/// The whole text file of a document.
pub open spec fn document_txt_model(
    d: DocumentDetail,
    tags: Seq<String>,
    ft: Option<&DocumentExportFulltext>,
    dr: Option<&DocumentExportDrawings>,
    hs: Seq<Annotation>,
) -> Seq<char> {
    let description = match ft {
        Some(f) => f.description,
        None => None,
    };
    let claims = match ft {
        Some(f) => f.claims,
        None => None,
    };
    header_model(d, tags, ft, dr) + "\n"@ + "===== ABSTRACT =====\n"@ + or_text(d.abstract_text, "Not available"@)
        + "\n"@ + "===== DESCRIPTION =====\n"@ + part_model(ft, description, "Description"@)
        + "===== CLAIMS =====\n"@ + part_model(ft, claims, "Claims"@) + "===== DRAWINGS =====\n"@
        + drawings_model(dr) + if hs.len() == 0 {
        Seq::empty()
    } else {
        "===== HIGHLIGHTS =====\n"@ + highlights_body(hs)
    }
}

fn or_str<'a>(o: &'a Option<String>, none: &'a str) -> (r: &'a str)
    ensures
        r@ == or_text(*o, none@),
{
    match o {
        Some(s) => s.as_str(),
        None => none,
    }
}

fn list_or_exec(v: &[String], sep: &str, none: &str) -> (r: String)
    ensures
        r@ == list_or(v@, sep@, none@),
{
    if v.len() == 0 {
        none.to_owned()
    } else {
        join_strings(v, sep)
    }
}

fn header_txt(
    d: &DocumentDetail,
    tags: &[String],
    ft: Option<&DocumentExportFulltext>,
    dr: Option<&DocumentExportDrawings>,
) -> (r: String)
    ensures
        r@ == header_model(*d, tags@, ft, dr),
{
    let mut out = "Publication: ".to_owned();
    push_str(&mut out, d.pub_key.as_str());
    if d.kind_codes.len() > 0 {
        push_str(&mut out, " (");
        push_str(&mut out, join_strings(d.kind_codes.as_slice(), ", ").as_str());
        push_str(&mut out, ")");
    }
    push_str(&mut out, "\n");
    push_str(&mut out, "Title: ");
    push_str(&mut out, or_str(&d.title, "Not available"));
    push_str(&mut out, "\n");
    push_str(&mut out, "Applicants: ");
    push_str(&mut out, list_or_exec(d.applicants.as_slice(), "; ", "Not available").as_str());
    push_str(&mut out, "\n");
    push_str(&mut out, "Publication date: ");
    push_str(&mut out, or_str(&d.publication_date, "Not available"));
    push_str(&mut out, "\n");
    push_str(&mut out, "CPC: ");
    push_str(&mut out, list_or_exec(d.cpc.as_slice(), ", ", "Not available").as_str());
    push_str(&mut out, "\n");
    push_str(&mut out, "Tags: ");
    push_str(&mut out, list_or_exec(tags, "; ", "None").as_str());
    push_str(&mut out, "\n");
    let mut sources: Vec<String> = Vec::new();
    if let Some(s) = &d.abstract_source {
        let mut x = "abstract ".to_owned();
        push_str(&mut x, s.as_str());
        sources.push(x);
    }
    if let Some(f) = ft {
        if let Some(s) = &f.source {
            let mut x = "full text ".to_owned();
            push_str(&mut x, s.as_str());
            sources.push(x);
        }
    }
    if let Some(g) = dr {
        if let Some(s) = &g.source {
            let mut x = "drawings ".to_owned();
            push_str(&mut x, s.as_str());
            sources.push(x);
        }
    }
    assert(strs_view(sources@) =~= sources_model(*d, ft, dr));
    push_str(&mut out, "Sources: ");
    push_str(&mut out, list_or_exec(sources.as_slice(), "; ", "None").as_str());
    push_str(&mut out, "\n");
    assert(out@ =~= header_model(*d, tags@, ft, dr));
    out
}

fn part_txt(ft: Option<&DocumentExportFulltext>, part: &Option<String>, label: &str) -> (r: String)
    ensures
        r@ == part_model(ft, *part, label@),
{
    let mut out = String::new();
    match ft {
        None => {
            push_str(&mut out, label);
            push_str(&mut out, " not retrieved.\n");
        },
        Some(f) => {
            let status = f.status.as_str();
            if crate::text::str_eq(status, "not_available") {
                push_str(&mut out, "Full text not available in OPS.\n");
            } else if crate::text::str_eq(status, "error") {
                push_str(&mut out, "Full text retrieval failed.\n");
            } else if crate::text::str_eq(status, "fetched") || crate::text::str_eq(status, "non_english_only") {
                match part {
                    Some(t) => {
                        if crate::text::str_eq(status, "non_english_only") {
                            push_str(&mut out, "[Non-English text, language: ");
                            push_str(&mut out, or_str(&f.lang, "unknown"));
                            push_str(&mut out, "]\n");
                        }
                        push_str(&mut out, t.as_str());
                        push_str(&mut out, "\n");
                    },
                    None => {
                        push_str(&mut out, label);
                        push_str(&mut out, " not available for this publication.\n");
                    },
                }
            } else {
                push_str(&mut out, label);
                push_str(&mut out, " not retrieved.\n");
            }
        },
    }
    assert(out@ =~= part_model(ft, *part, label@));
    out
}

fn drawings_txt(dr: Option<&DocumentExportDrawings>) -> (r: String)
    ensures
        r@ == drawings_model(dr),
{
    match dr {
        None => "Drawings not retrieved.\n".to_owned(),
        Some(d) => {
            let status = d.status.as_str();
            if crate::text::str_eq(status, "fetched") && d.page_paths.len() > 0 {
                let mut out = String::new();
                let mut i: usize = 0;
                let ghost ps = strs_view(d.page_paths@);
                assert(ps.take(0) =~= Seq::<Seq<char>>::empty());
                while i < d.page_paths.len()
                    invariant
                        i <= d.page_paths@.len(),
                        ps == strs_view(d.page_paths@),
                        out@ == lines_of(ps.take(i as int)),
                    decreases d.page_paths.len() - i,
                {
                    assert(ps.take(i + 1).drop_last() =~= ps.take(i as int));
                    push_str(&mut out, d.page_paths[i].as_str());
                    push_str(&mut out, "\n");
                    assert(out@ =~= lines_of(ps.take(i + 1)));
                    i += 1;
                }
                assert(ps.take(d.page_paths@.len() as int) =~= ps);
                out
            } else if crate::text::str_eq(status, "not_available") {
                "This publication has no drawings.\n".to_owned()
            } else if crate::text::str_eq(status, "error") {
                "Drawings retrieval failed.\n".to_owned()
            } else {
                "Drawings not retrieved.\n".to_owned()
            }
        },
    }
}

fn highlight_txt(h: &Annotation) -> (r: String)
    ensures
        r@ == highlight_model(*h),
{
    let mut out = String::new();
    push_str(&mut out, h.location.as_str());
    push_str(&mut out, " (");
    push_str(&mut out, h.color.as_str());
    if h.detached {
        push_str(&mut out, ", passage no longer in the text");
    }
    push_str(&mut out, "): \"");
    let q = chars_of(h.quote.as_str());
    let words = normalise_range(q.as_slice(), 0, q.len());
    assert(q@.subrange(0, q@.len() as int) =~= q@);
    push_str(&mut out, string_of(words.as_slice()).as_str());
    push_str(&mut out, "\"\n");
    let ghost head = out@;
    if let Some(c) = &h.comment {
        let cv = chars_of(c.as_str());
        let mut pieces = split_chars(cv.as_slice(), '\n');
        let ghost ls = lines_model(c@);
        if pieces.len() > 0 && pieces[pieces.len() - 1].len() == 0 {
            pieces.pop();
        }
        assert(views(pieces@) =~= ls);
        let mut i: usize = 0;
        assert(ls.take(0) =~= Seq::<Seq<char>>::empty());
        while i < pieces.len()
            invariant
                i <= pieces@.len(),
                views(pieces@) == ls,
                out@ == head + comment_lines(ls.take(i as int)),
            decreases pieces.len() - i,
        {
            assert(ls.take(i + 1).drop_last() =~= ls.take(i as int));
            assert(ls.take(i + 1).last() == pieces@[i as int]@);
            if i == 0 {
                push_str(&mut out, "  Comment: ");
            } else {
                push_str(&mut out, "           ");
            }
            let line = pieces[i].as_slice();
            let b = trim_end_index(line, 0, line.len());
            assert(line@.subrange(0, line.len() as int) =~= line@);
            push_str(&mut out, string_of(crate::text::slice_vec(line, 0, b).as_slice()).as_str());
            push_str(&mut out, "\n");
            assert(out@ =~= head + comment_lines(ls.take(i + 1)));
            i += 1;
        }
        assert(ls.take(pieces@.len() as int) =~= ls);
    }
    assert(out@ =~= highlight_model(*h));
    out
}

/// The per-document `.txt` export: a header (publication number with kind
/// codes, title, applicants, publication date, CPC, tags, sources), then
/// the abstract, description, claims and drawings, each part that is
/// missing stated as such, with different words for never retrieved, not
/// available and failed. A `HIGHLIGHTS` part follows when there are
/// highlights.
pub fn document_txt(
    detail: &DocumentDetail,
    tags: &[String],
    fulltext: Option<&DocumentExportFulltext>,
    drawings: Option<&DocumentExportDrawings>,
    highlights: &[Annotation],
) -> (r: String)
    ensures
        r@ == document_txt_model(*detail, tags@, fulltext, drawings, highlights@),
{
    let mut out = header_txt(detail, tags, fulltext, drawings);
    push_str(&mut out, "\n");
    push_str(&mut out, "===== ABSTRACT =====\n");
    push_str(&mut out, or_str(&detail.abstract_text, "Not available"));
    push_str(&mut out, "\n");
    push_str(&mut out, "===== DESCRIPTION =====\n");
    let none: Option<String> = None;
    let description = match fulltext {
        Some(f) => &f.description,
        None => &none,
    };
    push_str(&mut out, part_txt(fulltext, description, "Description").as_str());
    push_str(&mut out, "===== CLAIMS =====\n");
    let claims = match fulltext {
        Some(f) => &f.claims,
        None => &none,
    };
    push_str(&mut out, part_txt(fulltext, claims, "Claims").as_str());
    push_str(&mut out, "===== DRAWINGS =====\n");
    push_str(&mut out, drawings_txt(drawings).as_str());
    let ghost before = out@;
    if highlights.len() > 0 {
        push_str(&mut out, "===== HIGHLIGHTS =====\n");
        let mut i: usize = 0;
        let ghost start = out@;
        assert(highlights@.take(0) =~= Seq::<Annotation>::empty());
        while i < highlights.len()
            invariant
                i <= highlights@.len(),
                out@ == start + highlights_body(highlights@.take(i as int)),
            decreases highlights.len() - i,
        {
            assert(highlights@.take(i + 1).drop_last() =~= highlights@.take(i as int));
            push_str(&mut out, highlight_txt(&highlights[i]).as_str());
            assert(out@ =~= start + highlights_body(highlights@.take(i + 1)));
            i += 1;
        }
        assert(highlights@.take(highlights@.len() as int) =~= highlights@);
    }
    assert(out@ =~= document_txt_model(*detail, tags@, fulltext, drawings, highlights@));
    out
}


// ---------------------------------------------------------------------------
// Folder names
// ---------------------------------------------------------------------------

/// Document-export folder for selected documents with no active positive
/// tag. The leading underscore keeps it apart from tag folders; a tag that
/// happens to sanitise to the same name is disambiguated instead.
pub const UNTAGGED_FOLDER: &'static str = "_untagged";

/// Characters Windows forbids in file names.
pub open spec fn forbidden(c: char) -> bool {
    control(c) || c == '<' || c == '>' || c == ':' || c == '"' || c == '/' || c == '\\' || c == '|' || c == '?'
        || c == '*'
}

/// `s` without trailing dots and spaces.
pub open spec fn trim_dots_spaces(s: Seq<char>) -> Seq<char>
    decreases s.len(),
{
    if s.len() > 0 && (s.last() == '.' || s.last() == ' ') {
        trim_dots_spaces(s.drop_last())
    } else {
        s
    }
}

/// The text before the first dot (all of it when there is none).
pub open spec fn before_dot(s: Seq<char>) -> Seq<char> {
    match find_char(s, '.') {
        Some(i) => s.take(i),
        None => s,
    }
}

/// A Windows device name: `CON`, `PRN`, `AUX`, `NUL`, or `COM`/`LPT`
/// followed by one digit other than zero, in any case.
pub open spec fn is_device_name(stem: Seq<char>) -> bool {
    let u = upper_seq(stem);
    u == "CON"@ || u == "PRN"@ || u == "AUX"@ || u == "NUL"@ || (u.len() == 4 && (u.take(3) == "COM"@ || u.take(3)
        == "LPT"@) && is_digit(u[3]) && u[3] != '0')
}

/// A name made safe as a folder name on Windows and Linux: forbidden
/// characters become `_`, surrounding whitespace and trailing dots and
/// spaces go, a device name (also with an extension) gets a trailing `_`,
/// and an empty result is `_`.
pub open spec fn sanitize_model(name: Seq<char>) -> Seq<char> {
    let replaced = name.map_values(|c: char| if forbidden(c) { '_' } else { c });
    let t = trim_dots_spaces(trim(replaced));
    if t.len() == 0 {
        "_"@
    } else if is_device_name(trim_end(before_dot(t))) {
        t + "_"@
    } else {
        t
    }
}

/// A tag name made safe as a folder name on both Windows and Linux:
/// characters Windows forbids (`<>:"/\|?*` and control characters) become
/// `_`, trailing dots and spaces (which Windows strips) are removed, and
/// reserved device names (`CON`, `COM1`, … also with an extension) get a
/// trailing `_`. Never empty.
#[verifier::rlimit(30)]
pub fn sanitize_folder_name(name: &str) -> (r: String)
    ensures
        r@ == sanitize_model(name@),
        r@.len() > 0,
{
    let v = chars_of(name);
    let mut replaced: Vec<char> = Vec::new();
    let mut i: usize = 0;
    let ghost want = name@.map_values(|c: char| if forbidden(c) { '_' } else { c });
    while i < v.len()
        invariant
            i <= v.len(),
            v@ == name@,
            want == name@.map_values(|c: char| if forbidden(c) { '_' } else { c }),
            replaced@ == want.take(i as int),
        decreases v.len() - i,
    {
        let c = v[i];
        let bad = is_control(c) || c == '<' || c == '>' || c == ':' || c == '"' || c == '/' || c == '\\' || c
            == '|' || c == '?' || c == '*';
        if bad {
            replaced.push('_');
        } else {
            replaced.push(c);
        }
        assert(replaced@ =~= want.take(i + 1));
        i += 1;
    }
    assert(want.take(v.len() as int) =~= want);
    let (a, b0) = trim_bounds(replaced.as_slice(), 0, replaced.len());
    assert(replaced@.subrange(0, replaced@.len() as int) =~= replaced@);
    let mut b = b0;
    while b > a && (replaced[b - 1] == '.' || replaced[b - 1] == ' ')
        invariant
            a <= b <= b0 <= replaced@.len(),
            trim_dots_spaces(replaced@.subrange(a as int, b0 as int)) == trim_dots_spaces(
                replaced@.subrange(a as int, b as int),
            ),
        decreases b - a,
    {
        assert(replaced@.subrange(a as int, b as int).drop_last() =~= replaced@.subrange(a as int, b - 1));
        b -= 1;
    }
    let ghost t = replaced@.subrange(a as int, b as int);
    assert(trim_dots_spaces(t) == t) by {
        if t.len() > 0 {
            assert(t.last() == replaced@[b - 1]);
        }
    }
    proof {
        reveal_strlit("_");
    }
    if a == b {
        return "_".to_owned();
    }
    let tv = slice_vec(replaced.as_slice(), a, b);
    let stem_end = match find_char_exec(tv.as_slice(), 0, tv.len(), '.') {
        Some(k) => k,
        None => tv.len(),
    };
    proof {
        crate::text::lemma_find_char(tv@, '.');
        assert(tv@.subrange(0, tv@.len() as int) =~= tv@);
    }
    let stem_trim = trim_end_index(tv.as_slice(), 0, stem_end);
    assert(tv@.subrange(0, stem_end as int) =~= before_dot(tv@));
    let stem = slice_vec(tv.as_slice(), 0, stem_trim);
    let u = upper_all(stem.as_slice());
    let device = chars_eq_str(u.as_slice(), "CON") || chars_eq_str(u.as_slice(), "PRN") || chars_eq_str(
        u.as_slice(),
        "AUX",
    ) || chars_eq_str(u.as_slice(), "NUL") || (u.len() == 4 && (chars_eq_str(
        slice_vec(u.as_slice(), 0, 3).as_slice(),
        "COM",
    ) || chars_eq_str(slice_vec(u.as_slice(), 0, 3).as_slice(), "LPT")) && digit(u[3]) && u[3] != '0');
    proof {
        if u.len() == 4 {
            assert(u@.subrange(0, 3) =~= u@.take(3));
        }
    }
    let mut out = string_of(tv.as_slice());
    if device {
        push_str(&mut out, "_");
    }
    out
}

pub open spec fn tags_view(tags: Seq<(i64, &str)>) -> Seq<(i64, Seq<char>)> {
    tags.map_values(|t: (i64, &str)| (t.0, t.1@))
}

/// Puts `x` after every item of the id-ordered `s` whose id is not greater.
pub open spec fn insert_by_id(s: Seq<(i64, Seq<char>)>, x: (i64, Seq<char>)) -> Seq<(i64, Seq<char>)>
    decreases s.len(),
{
    if s.len() == 0 || s.last().0 <= x.0 {
        s.push(x)
    } else {
        insert_by_id(s.drop_last(), x).push(s.last())
    }
}

/// The items ordered by id; items with the same id keep their order.
pub open spec fn by_id(s: Seq<(i64, Seq<char>)>) -> Seq<(i64, Seq<char>)>
    decreases s.len(),
{
    if s.len() == 0 {
        s
    } else {
        insert_by_id(by_id(s.drop_last()), s.last())
    }
}

/// `base`, or `base (n)` for `n` from 2 on.
pub open spec fn suffixed(base: Seq<char>, n: nat) -> Seq<char> {
    if n <= 1 {
        base
    } else {
        base + " ("@ + decimal(n) + ")"@
    }
}

/// The first `n` from 1 on whose `suffixed(key, n)` is not taken.
pub open spec fn first_free(key: Seq<char>, taken: Set<Seq<char>>) -> nat {
    choose|n: nat|
        n >= 1 && !taken.contains(suffixed(key, n)) && forall|k: nat| 1 <= k < n ==> taken.contains(
            #[trigger] suffixed(key, k),
        )
}

/// The folder names given so far, by tag id, and the lowercase names
/// taken. Lowercasing `name (n)` gives the lowercase of `name` followed by
/// ` (n)`: the suffix has no letters, so it changes nothing around it.
pub open spec fn assign_folders(tags: Seq<(i64, Seq<char>)>) -> (Map<i64, Seq<char>>, Set<Seq<char>>)
    decreases tags.len(),
{
    if tags.len() == 0 {
        (Map::empty(), set![unicode_lowercase(UNTAGGED_FOLDER@)])
    } else {
        let (names, taken) = assign_folders(tags.drop_last());
        let base = sanitize_model(tags.last().1);
        let key = unicode_lowercase(base);
        let n = first_free(key, taken);
        (names.insert(tags.last().0, suffixed(base, n)), taken.insert(suffixed(key, n)))
    }
}

pub open spec fn folder_names_model(tags: Seq<(i64, &str)>) -> Map<i64, Seq<char>> {
    assign_folders(by_id(tags_view(tags))).0
}


/// Different numbers give different suffixed names.
pub proof fn lemma_suffixed_injective(key: Seq<char>, k: nat, m: nat)
    requires
        k >= 1,
        m >= 1,
        suffixed(key, k) == suffixed(key, m),
    ensures
        k == m,
{
    reveal_strlit(" (");
    reveal_strlit(")");
    crate::text::lemma_decimal_len(k);
    crate::text::lemma_decimal_len(m);
    if k >= 2 && m >= 2 {
        let a = suffixed(key, k);
        let b = suffixed(key, m);
        let lo: int = key.len() as int + 2;
        assert(decimal(k).len() == decimal(m).len());
        assert(a.subrange(lo, lo + decimal(k).len() as int) =~= decimal(k));
        assert(b.subrange(lo, lo + decimal(m).len() as int) =~= decimal(m));
        crate::text::lemma_decimal_injective(k, m);
    } else if k >= 2 {
        assert(suffixed(key, k).len() > key.len());
    } else if m >= 2 {
        assert(suffixed(key, m).len() > key.len());
    }
}

fn contains_str(v: &Vec<String>, s: &str) -> (r: bool)
    ensures
        r == strs_view(v@).contains(s@),
{
    let mut i: usize = 0;
    while i < v.len()
        invariant
            i <= v@.len(),
            forall|k: int| 0 <= k < i ==> v@[k]@ != s@,
        decreases v.len() - i,
    {
        if crate::text::str_eq(v[i].as_str(), s) {
            assert(strs_view(v@)[i as int] == s@);
            return true;
        }
        i += 1;
    }
    false
}

fn suffixed_exec(base: &str, n: usize) -> (r: String)
    ensures
        r@ == suffixed(base@, n as nat),
{
    if n <= 1 {
        base.to_owned()
    } else {
        let mut out = base.to_owned();
        push_str(&mut out, " (");
        push_str(&mut out, string_of(crate::text::decimal_chars(n as u64).as_slice()).as_str());
        push_str(&mut out, ")");
        out
    }
}

/// The first free suffix for `key` among the names taken, and the name.
fn first_free_exec(taken: &Vec<String>, key: &str) -> (r: (usize, String))
    requires
        taken@.len() < usize::MAX,
    ensures
        r.0 as nat == first_free(key@, strs_view(taken@).to_set()),
        r.1@ == suffixed(key@, r.0 as nat),
        r.0 >= 1,
{
    let ghost ts = strs_view(taken@).to_set();
    proof {
        strs_view(taken@).lemma_cardinality_of_set();
        vstd::seq_lib::seq_to_set_is_finite(strs_view(taken@));
    }
    let mut n: usize = 1;
    let mut cand = key.to_owned();
    let ghost mut w: Set<Seq<char>> = Set::empty();
    while contains_str(taken, cand.as_str())
        invariant
            1 <= n <= taken@.len() + 1,
            taken@.len() < usize::MAX,
            ts == strs_view(taken@).to_set(),
            ts.finite(),
            ts.len() <= taken@.len(),
            cand@ == suffixed(key@, n as nat),
            forall|k: nat| 1 <= k < n ==> ts.contains(#[trigger] suffixed(key@, k)),
            w.finite(),
            w.len() == n - 1,
            w.subset_of(ts),
            forall|x: Seq<char>| #[trigger] w.contains(x) ==> exists|k: nat| 1 <= k < n && x == suffixed(key@, k),
        decreases taken@.len() + 1 - n,
    {
        proof {
            assert(ts.contains(cand@));
            if w.contains(cand@) {
                let k = choose|k: nat| 1 <= k < n && cand@ == suffixed(key@, k);
                lemma_suffixed_injective(key@, k, n as nat);
            }
            w = w.insert(cand@);
            vstd::set_lib::lemma_len_subset(w, ts);
        }
        n += 1;
        cand = suffixed_exec(key, n);
    }
    proof {
        let f = first_free(key@, ts);
        assert(n >= 1 && !ts.contains(suffixed(key@, n as nat)) && forall|k: nat| 1 <= k < n ==> ts.contains(
            #[trigger] suffixed(key@, k),
        ));
        if f < n {
            assert(ts.contains(suffixed(key@, f)));
        } else if f > n {
            assert(ts.contains(suffixed(key@, n as nat)));
        }
    }
    (n, cand)
}

pub proof fn lemma_by_id_len(s: Seq<(i64, Seq<char>)>)
    ensures
        by_id(s).len() == s.len(),
    decreases s.len(),
{
    if s.len() > 0 {
        lemma_by_id_len(s.drop_last());
        lemma_insert_by_id_len(by_id(s.drop_last()), s.last());
    }
}

pub proof fn lemma_insert_by_id_len(s: Seq<(i64, Seq<char>)>, x: (i64, Seq<char>))
    ensures
        insert_by_id(s, x).len() == s.len() + 1,
    decreases s.len(),
{
    if s.len() > 0 && s.last().0 > x.0 {
        lemma_insert_by_id_len(s.drop_last(), x);
    }
}

/// The items ordered by id, items with the same id in their order.
fn sort_by_id<'a>(tags: &[(i64, &'a str)]) -> (r: Vec<(i64, &'a str)>)
    ensures
        tags_view(r@) == by_id(tags_view(tags@)),
{
    let mut out: Vec<(i64, &'a str)> = Vec::new();
    let mut i: usize = 0;
    let ghost tv = tags_view(tags@);
    assert(tv.take(0) =~= Seq::<(i64, Seq<char>)>::empty());
    while i < tags.len()
        invariant
            i <= tags@.len(),
            tv == tags_view(tags@),
            tags_view(out@) == by_id(tv.take(i as int)),
        decreases tags.len() - i,
    {
        let x = tags[i];
        let ghost s = tags_view(out@);
        let ghost xv = (x.0, x.1@);
        assert(tv.take(i + 1).drop_last() =~= tv.take(i as int));
        assert(tv.take(i + 1).last() == xv);
        let mut j = out.len();
        assert(s.take(j as int) =~= s);
        assert(s.skip(j as int) =~= Seq::<(i64, Seq<char>)>::empty());
        assert(insert_by_id(s, xv) + Seq::<(i64, Seq<char>)>::empty() =~= insert_by_id(s, xv));
        while j > 0 && out[j - 1].0 > x.0
            invariant
                j <= out@.len(),
                s == tags_view(out@),
                xv.0 == x.0,
                insert_by_id(s, xv) == insert_by_id(s.take(j as int), xv) + s.skip(j as int),
            decreases j,
        {
            assert(s.take(j as int).drop_last() =~= s.take(j - 1));
            assert(s.take(j as int).last() == s[j - 1]);
            assert(s[j - 1].0 == out@[j - 1].0);
            assert(insert_by_id(s.take(j as int), xv) == insert_by_id(s.take(j - 1), xv).push(s[j - 1]));
            assert(insert_by_id(s.take(j - 1), xv) + s.skip(j - 1) =~= insert_by_id(s.take(j - 1), xv).push(
                s[j - 1],
            ) + s.skip(j as int));
            j -= 1;
        }
        assert(insert_by_id(s.take(j as int), xv) == s.take(j as int).push(xv)) by {
            if j > 0 {
                assert(s.take(j as int).last() == s[j - 1]);
            }
        }
        out.insert(j, x);
        assert(tags_view(out@) =~= s.take(j as int).push(xv) + s.skip(j as int));
        i += 1;
    }
    assert(tv.take(tags.len() as int) =~= tv);
    out
}

pub open spec fn names_match(names: Map<i64, String>, m: Map<i64, Seq<char>>) -> bool {
    &&& names.dom() == m.dom()
    &&& forall|k: i64| #[trigger] names.contains_key(k) ==> names[k]@ == m[k]
}

/// One folder name per tag for the by-tag document export, keyed by tag
/// id. Names are sanitised with `sanitize_folder_name` and are unique
/// case-insensitively (Windows file names are), also against
/// `UNTAGGED_FOLDER`. On a clash the tag with the lower id keeps the plain
/// name and later ones get ` (2)`, ` (3)`, …, so names are stable across
/// exports as long as tags are not renamed.
pub fn tag_folder_names(tags: &[(i64, &str)]) -> (r: HashMap<i64, String>)
    requires
        tags@.len() < usize::MAX,
    ensures
        names_match(r@, folder_names_model(tags@)),
{
    broadcast use vstd::std_specs::hash::group_hash_axioms;

    let sorted = sort_by_id(tags);
    let ghost sv = tags_view(sorted@);
    proof {
        lemma_by_id_len(tags_view(tags@));
    }
    let mut taken: Vec<String> = Vec::new();
    taken.push(to_lowercase(UNTAGGED_FOLDER));
    let mut names: HashMap<i64, String> = HashMap::new();
    assert(sv.take(0) =~= Seq::<(i64, Seq<char>)>::empty());
    assert(strs_view(taken@).to_set() =~= set![unicode_lowercase(UNTAGGED_FOLDER@)]) by {
        assert(strs_view(taken@)[0] == unicode_lowercase(UNTAGGED_FOLDER@));
    }
    let mut i: usize = 0;
    while i < sorted.len()
        invariant
            i <= sorted@.len(),
            sorted@.len() == tags@.len(),
            tags@.len() < usize::MAX,
            sv == tags_view(sorted@),
            taken@.len() == i + 1,
            strs_view(taken@).to_set() == assign_folders(sv.take(i as int)).1,
            names_match(names@, assign_folders(sv.take(i as int)).0),
        decreases sorted.len() - i,
    {
        let (id, name) = sorted[i];
        assert(sv.take(i + 1).drop_last() =~= sv.take(i as int));
        assert(sv.take(i + 1).last() == (id, name@));
        let base = sanitize_folder_name(name);
        let key = to_lowercase(base.as_str());
        let (n, key_n) = first_free_exec(&taken, key.as_str());
        let candidate = suffixed_exec(base.as_str(), n);
        let ghost before = strs_view(taken@);
        taken.push(key_n);
        assert(strs_view(taken@) =~= before.push(key_n@));
        proof {
            before.lemma_push_to_set_commute(key_n@);
        }
        names.insert(id, candidate);
        i += 1;
    }
    assert(sv.take(sorted@.len() as int) =~= sv);
    names
}

/// No character of `s` is one that folder names may not hold.
pub open spec fn no_forbidden(s: Seq<char>) -> bool {
    forall|i: int| 0 <= i < s.len() ==> !forbidden(#[trigger] s[i])
}

proof fn lemma_no_forbidden_trims(s: Seq<char>)
    requires
        no_forbidden(s),
    ensures
        no_forbidden(trim_start(s)),
        no_forbidden(trim_end(s)),
        no_forbidden(trim_dots_spaces(s)),
    decreases s.len(),
{
    if s.len() > 0 {
        assert(no_forbidden(s.drop_first())) by {
            assert forall|i: int| 0 <= i < s.drop_first().len() implies !forbidden(#[trigger] s.drop_first()[i]) by {
                assert(s.drop_first()[i] == s[i + 1]);
            }
        }
        assert(no_forbidden(s.drop_last())) by {
            assert forall|i: int| 0 <= i < s.drop_last().len() implies !forbidden(#[trigger] s.drop_last()[i]) by {
                assert(s.drop_last()[i] == s[i]);
            }
        }
        lemma_no_forbidden_trims(s.drop_first());
        lemma_no_forbidden_trims(s.drop_last());
    }
}

/// `trim_dots_spaces` leaves no dot or space at the end.
proof fn lemma_trim_dots_spaces_end(s: Seq<char>)
    ensures
        trim_dots_spaces(s).len() > 0 ==> trim_dots_spaces(s).last() != '.' && trim_dots_spaces(s).last() != ' ',
    decreases s.len(),
{
    if s.len() > 0 && (s.last() == '.' || s.last() == ' ') {
        lemma_trim_dots_spaces_end(s.drop_last());
    }
}

/// A sanitised folder name is safe: never empty, free of the characters
/// Windows forbids, and without a trailing dot or space.
pub proof fn law_sanitized_folder_name_is_safe(name: Seq<char>)
    ensures
        sanitize_model(name).len() > 0,
        no_forbidden(sanitize_model(name)),
        sanitize_model(name).last() != '.',
        sanitize_model(name).last() != ' ',
{
    reveal_strlit("_");
    let replaced = name.map_values(|c: char| if forbidden(c) { '_' } else { c });
    assert(!forbidden('_'));
    assert(no_forbidden(replaced));
    lemma_no_forbidden_trims(replaced);
    lemma_no_forbidden_trims(trim_start(replaced));
    lemma_no_forbidden_trims(trim(replaced));
    let t = trim_dots_spaces(trim(replaced));
    lemma_trim_dots_spaces_end(trim(replaced));
    if t.len() > 0 {
        let r = t + "_"@;
        assert forall|i: int| 0 <= i < r.len() implies !forbidden(#[trigger] r[i]) by {
            if i < t.len() {
                assert(r[i] == t[i]);
            }
        }
    }
}

/// Past the names in `taken`, some suffix of `key` is free, and the first
/// free one is what `first_free` gives.
proof fn lemma_first_free_from(key: Seq<char>, taken: Set<Seq<char>>, n: nat, w: Set<Seq<char>>)
    requires
        taken.finite(),
        n >= 1,
        forall|k: nat| 1 <= k < n ==> taken.contains(#[trigger] suffixed(key, k)),
        w.finite(),
        w.len() == n - 1,
        w.subset_of(taken),
        forall|x: Seq<char>| #[trigger] w.contains(x) ==> exists|k: nat| 1 <= k < n && x == suffixed(key, k),
    ensures
        first_free(key, taken) >= 1,
        !taken.contains(suffixed(key, first_free(key, taken))),
        forall|k: nat| 1 <= k < first_free(key, taken) ==> taken.contains(#[trigger] suffixed(key, k)),
    decreases taken.len() + 1 - n,
{
    vstd::set_lib::lemma_len_subset(w, taken);
    let sn = suffixed(key, n);
    if !taken.contains(sn) {
        assert(n >= 1 && !taken.contains(suffixed(key, n)) && forall|k: nat| 1 <= k < n ==> taken.contains(
            #[trigger] suffixed(key, k),
        ));
    } else {
        if w.contains(sn) {
            let k = choose|k: nat| 1 <= k < n && sn == suffixed(key, k);
            lemma_suffixed_injective(key, k, n);
        }
        let w2 = w.insert(sn);
        vstd::set_lib::lemma_len_subset(w2, taken);
        assert forall|x: Seq<char>| #[trigger] w2.contains(x) implies exists|k: nat| 1 <= k < n + 1 && x == suffixed(
            key,
            k,
        ) by {
            if x != sn {
                let k = choose|k: nat| 1 <= k < n && x == suffixed(key, k);
            }
        }
        lemma_first_free_from(key, taken, n + 1, w2);
    }
}

/// The folder name chosen for each tag id: its sanitised name and the
/// number of its suffix.
pub open spec fn folder_choices(tags: Seq<(i64, Seq<char>)>) -> Map<i64, (Seq<char>, nat)>
    decreases tags.len(),
{
    if tags.len() == 0 {
        Map::empty()
    } else {
        let taken = assign_folders(tags.drop_last()).1;
        let base = sanitize_model(tags.last().1);
        folder_choices(tags.drop_last()).insert(
            tags.last().0,
            (base, first_free(unicode_lowercase(base), taken)),
        )
    }
}

/// The case-insensitive key of a chosen folder name: the lowercase name
/// with the same suffix.
pub open spec fn folder_key(c: (Seq<char>, nat)) -> Seq<char> {
    suffixed(unicode_lowercase(c.0), c.1)
}

proof fn lemma_folder_choices(tags: Seq<(i64, Seq<char>)>)
    ensures
        assign_folders(tags).1.finite(),
        assign_folders(tags).1.contains(unicode_lowercase(UNTAGGED_FOLDER@)),
        folder_choices(tags).dom() == assign_folders(tags).0.dom(),
        forall|a: i64| #[trigger] folder_choices(tags).contains_key(a) ==> assign_folders(tags).0[a] == suffixed(
            folder_choices(tags)[a].0,
            folder_choices(tags)[a].1,
        ) && assign_folders(tags).1.contains(folder_key(folder_choices(tags)[a])) && folder_key(
            folder_choices(tags)[a],
        ) != unicode_lowercase(UNTAGGED_FOLDER@),
        forall|a: i64, b: i64|
            #![trigger folder_choices(tags)[a], folder_choices(tags)[b]]
            folder_choices(tags).contains_key(a) && folder_choices(tags).contains_key(b) && a != b ==> folder_key(
                folder_choices(tags)[a],
            ) != folder_key(folder_choices(tags)[b]),
    decreases tags.len(),
{
    if tags.len() > 0 {
        let pre = tags.drop_last();
        lemma_folder_choices(pre);
        let (names, taken) = assign_folders(pre);
        let base = sanitize_model(tags.last().1);
        let key = unicode_lowercase(base);
        lemma_first_free_from(key, taken, 1, Set::empty());
        let n = first_free(key, taken);
        let c = folder_choices(tags);
        let pc = folder_choices(pre);
        let id = tags.last().0;
        assert(c == pc.insert(id, (base, n)));
        assert(folder_key((base, n)) == suffixed(key, n));
        assert forall|a: i64, b: i64|
            #![trigger c[a], c[b]]
            c.contains_key(a) && c.contains_key(b) && a != b implies folder_key(c[a]) != folder_key(c[b]) by {
            if a != id && b != id {
                assert(c[a] == pc[a] && c[b] == pc[b]);
                assert(folder_key(pc[a]) != folder_key(pc[b]));
            } else if a == id {
                assert(c[b] == pc[b]);
                assert(taken.contains(folder_key(pc[b])));
            } else {
                assert(c[a] == pc[a]);
                assert(taken.contains(folder_key(pc[a])));
            }
        }
        assert forall|a: i64| #[trigger] c.contains_key(a) implies assign_folders(tags).0[a] == suffixed(
            c[a].0,
            c[a].1,
        ) && assign_folders(tags).1.contains(folder_key(c[a])) && folder_key(c[a]) != unicode_lowercase(
            UNTAGGED_FOLDER@,
        ) by {
            if a != id {
                assert(c[a] == pc[a]);
            }
        }
        assert(folder_choices(tags).dom() =~= assign_folders(tags).0.dom());
    }
}

/// Folder names never clash case-insensitively. Each tag's name is its
/// sanitised name, possibly followed by ` (n)`; its key (the lowercase of
/// that name, with the same suffix) differs from every other tag's key and
/// from the lowercase of `UNTAGGED_FOLDER`.
pub proof fn law_folder_names_unique(tags: Seq<(i64, &str)>)
    ensures
        folder_names_model(tags).dom() == folder_choices(by_id(tags_view(tags))).dom(),
        forall|a: i64| #[trigger] folder_names_model(tags).contains_key(a) ==> {
            let c = folder_choices(by_id(tags_view(tags)))[a];
            &&& folder_names_model(tags)[a] == suffixed(c.0, c.1)
            &&& folder_key(c) != unicode_lowercase(UNTAGGED_FOLDER@)
        },
        forall|a: i64, b: i64|
            #![trigger folder_names_model(tags)[a], folder_names_model(tags)[b]]
            folder_names_model(tags).contains_key(a) && folder_names_model(tags).contains_key(b) && a != b
                ==> folder_key(folder_choices(by_id(tags_view(tags)))[a]) != folder_key(
                folder_choices(by_id(tags_view(tags)))[b],
            ),
{
    let t = by_id(tags_view(tags));
    lemma_folder_choices(t);
    let c = folder_choices(t);
    assert forall|a: i64, b: i64|
        #![trigger folder_names_model(tags)[a], folder_names_model(tags)[b]]
        folder_names_model(tags).contains_key(a) && folder_names_model(tags).contains_key(b) && a != b
            implies folder_key(c[a]) != folder_key(c[b]) by {
        assert(c.contains_key(a) && c.contains_key(b));
    }
}

/// No two items share an id.
pub open spec fn ids_distinct(s: Seq<(i64, Seq<char>)>) -> bool {
    forall|i: int, j: int| 0 <= i < j < s.len() ==> (#[trigger] s[i]).0 != (#[trigger] s[j]).0
}

pub open spec fn ids_ascending(s: Seq<(i64, Seq<char>)>) -> bool {
    forall|i: int, j: int| 0 <= i <= j < s.len() ==> (#[trigger] s[i]).0 <= (#[trigger] s[j]).0
}

proof fn lemma_insert_by_id_items(s: Seq<(i64, Seq<char>)>, x: (i64, Seq<char>))
    requires
        ids_ascending(s),
    ensures
        ids_ascending(insert_by_id(s, x)),
        forall|e: (i64, Seq<char>)| #[trigger] insert_by_id(s, x).contains(e) <==> (s.contains(e) || e == x),
        ids_distinct(s) && (forall|i: int| 0 <= i < s.len() ==> (#[trigger] s[i]).0 != x.0) ==> ids_distinct(
            insert_by_id(s, x),
        ),
    decreases s.len(),
{
    let r = insert_by_id(s, x);
    lemma_insert_by_id_len(s, x);
    if s.len() == 0 || s.last().0 <= x.0 {
        assert(r == s.push(x));
        assert forall|i: int, j: int| 0 <= i <= j < r.len() implies (#[trigger] r[i]).0 <= (#[trigger] r[j]).0 by {
            if j == s.len() {
                if i < s.len() {
                    assert(s[i].0 <= s[s.len() - 1].0);
                }
            } else {
                assert(r[i] == s[i] && r[j] == s[j]);
            }
        }
        assert forall|e: (i64, Seq<char>)| #[trigger] r.contains(e) <==> (s.contains(e) || e == x) by {
            if r.contains(e) {
                let k = choose|k: int| 0 <= k < r.len() && r[k] == e;
                if k < s.len() {
                    assert(s[k] == e);
                }
            }
            if s.contains(e) {
                let k = choose|k: int| 0 <= k < s.len() && s[k] == e;
                assert(r[k] == e);
            }
            if e == x {
                assert(r[s.len() as int] == e);
            }
        }
        if ids_distinct(s) && (forall|i: int| 0 <= i < s.len() ==> (#[trigger] s[i]).0 != x.0) {
            assert forall|i: int, j: int| 0 <= i < j < r.len() implies (#[trigger] r[i]).0 != (#[trigger] r[j]).0 by {
                assert(r[i] == s[i]);
                if j < s.len() {
                    assert(r[j] == s[j]);
                }
            }
        }
    } else {
        let d = s.drop_last();
        let last = s.last();
        assert forall|i: int, j: int| 0 <= i <= j < d.len() implies (#[trigger] d[i]).0 <= (#[trigger] d[j]).0 by {
            assert(d[i] == s[i] && d[j] == s[j]);
        }
        lemma_insert_by_id_items(d, x);
        let q = insert_by_id(d, x);
        lemma_insert_by_id_len(d, x);
        assert(r == q.push(last));
        assert forall|k: int| 0 <= k < q.len() implies (#[trigger] q[k]).0 <= last.0 by {
            assert(q.contains(q[k]));
            if d.contains(q[k]) {
                let m = choose|m: int| 0 <= m < d.len() && d[m] == q[k];
                assert(s[m] == d[m]);
                assert(s[m].0 <= s[s.len() - 1].0);
            }
        }
        assert forall|i: int, j: int| 0 <= i <= j < r.len() implies (#[trigger] r[i]).0 <= (#[trigger] r[j]).0 by {
            if j == q.len() {
                if i < q.len() {
                    assert(r[i] == q[i]);
                }
            } else {
                assert(r[i] == q[i] && r[j] == q[j]);
            }
        }
        assert forall|e: (i64, Seq<char>)| #[trigger] r.contains(e) <==> (s.contains(e) || e == x) by {
            if r.contains(e) {
                let k = choose|k: int| 0 <= k < r.len() && r[k] == e;
                if k < q.len() {
                    assert(q[k] == e);
                    assert(q.contains(e));
                    if d.contains(e) {
                        let m = choose|m: int| 0 <= m < d.len() && d[m] == e;
                        assert(s[m] == e);
                    }
                } else {
                    assert(s[s.len() - 1] == e);
                }
            }
            if s.contains(e) {
                let k = choose|k: int| 0 <= k < s.len() && s[k] == e;
                if k < s.len() - 1 {
                    assert(d[k] == e);
                    assert(q.contains(e));
                    let m = choose|m: int| 0 <= m < q.len() && q[m] == e;
                    assert(r[m] == e);
                } else {
                    assert(r[q.len() as int] == e);
                }
            }
            if e == x {
                assert(q.contains(e));
                let m = choose|m: int| 0 <= m < q.len() && q[m] == e;
                assert(r[m] == e);
            }
        }
        if ids_distinct(s) && (forall|i: int| 0 <= i < s.len() ==> (#[trigger] s[i]).0 != x.0) {
            assert forall|i: int, j: int| 0 <= i < j < d.len() implies (#[trigger] d[i]).0 != (#[trigger] d[j]).0 by {
                assert(d[i] == s[i] && d[j] == s[j]);
            }
            assert forall|i: int| 0 <= i < d.len() implies (#[trigger] d[i]).0 != x.0 by {
                assert(d[i] == s[i]);
            }
            assert forall|i: int, j: int| 0 <= i < j < r.len() implies (#[trigger] r[i]).0 != (#[trigger] r[j]).0 by {
                assert(r[i] == q[i]);
                if j < q.len() {
                    assert(r[j] == q[j]);
                } else {
                    assert(r[j] == last);
                    assert(q.contains(q[i]));
                    if d.contains(q[i]) {
                        let m = choose|m: int| 0 <= m < d.len() && d[m] == q[i];
                        assert(s[m] == d[m]);
                        assert(s[m].0 != s[s.len() - 1].0);
                    }
                }
            }
        }
    }
}

proof fn lemma_by_id_items(s: Seq<(i64, Seq<char>)>)
    ensures
        ids_ascending(by_id(s)),
        forall|e: (i64, Seq<char>)| #[trigger] by_id(s).contains(e) <==> s.contains(e),
        ids_distinct(s) ==> ids_distinct(by_id(s)),
    decreases s.len(),
{
    if s.len() > 0 {
        let d = s.drop_last();
        lemma_by_id_items(d);
        let b = by_id(d);
        lemma_insert_by_id_items(b, s.last());
        assert forall|e: (i64, Seq<char>)| #[trigger] by_id(s).contains(e) <==> s.contains(e) by {
            if s.contains(e) {
                let k = choose|k: int| 0 <= k < s.len() && s[k] == e;
                if k < d.len() {
                    assert(d[k] == e);
                    assert(d.contains(e));
                }
            }
            if d.contains(e) {
                let k = choose|k: int| 0 <= k < d.len() && d[k] == e;
                assert(s[k] == e);
            }
            if e == s.last() {
                assert(s[s.len() - 1] == e);
            }
        }
        if ids_distinct(s) {
            assert forall|i: int, j: int| 0 <= i < j < d.len() implies (#[trigger] d[i]).0 != (#[trigger] d[j]).0 by {
                assert(d[i] == s[i] && d[j] == s[j]);
            }
            assert forall|i: int| 0 <= i < b.len() implies (#[trigger] b[i]).0 != s.last().0 by {
                assert(b.contains(b[i]));
                let m = choose|m: int| 0 <= m < d.len() && d[m] == b[i];
                assert(s[m] == d[m]);
                assert(s[m].0 != s[s.len() - 1].0);
            }
        }
    }
}

/// Two id-ordered lists of the same items, no id twice, are the same list.
proof fn lemma_ordered_items_unique(a: Seq<(i64, Seq<char>)>, b: Seq<(i64, Seq<char>)>)
    requires
        ids_ascending(a),
        ids_ascending(b),
        ids_distinct(a),
        ids_distinct(b),
        forall|e: (i64, Seq<char>)| #[trigger] a.contains(e) <==> b.contains(e),
    ensures
        a == b,
    decreases a.len() + b.len(),
{
    if a.len() == 0 {
        if b.len() > 0 {
            assert(b.contains(b[0]));
            assert(a.contains(b[0]));
        }
        assert(a =~= b);
    } else if b.len() == 0 {
        assert(a.contains(a[0]));
    } else {
        let la = a.last();
        let lb = b.last();
        assert(a[a.len() - 1] == la && b[b.len() - 1] == lb);
        assert(a.contains(la));
        assert(b.contains(la));
        assert(b.contains(lb));
        assert(a.contains(lb));
        let ia = choose|k: int| 0 <= k < b.len() && b[k] == la;
        let ib = choose|k: int| 0 <= k < a.len() && a[k] == lb;
        assert(a[ib].0 <= a[a.len() - 1].0);
        assert(b[ia].0 <= b[b.len() - 1].0);
        assert(la.0 == lb.0);
        if ia != b.len() - 1 {
            assert(b[ia].0 != b[b.len() - 1].0);
        }
        assert(la == lb);
        let da = a.drop_last();
        let db = b.drop_last();
        assert forall|i: int, j: int| 0 <= i <= j < da.len() implies (#[trigger] da[i]).0 <= (#[trigger] da[j]).0 by {
            assert(da[i] == a[i] && da[j] == a[j]);
        }
        assert forall|i: int, j: int| 0 <= i <= j < db.len() implies (#[trigger] db[i]).0 <= (#[trigger] db[j]).0 by {
            assert(db[i] == b[i] && db[j] == b[j]);
        }
        assert forall|i: int, j: int| 0 <= i < j < da.len() implies (#[trigger] da[i]).0 != (#[trigger] da[j]).0 by {
            assert(da[i] == a[i] && da[j] == a[j]);
        }
        assert forall|i: int, j: int| 0 <= i < j < db.len() implies (#[trigger] db[i]).0 != (#[trigger] db[j]).0 by {
            assert(db[i] == b[i] && db[j] == b[j]);
        }
        assert forall|e: (i64, Seq<char>)| #[trigger] da.contains(e) <==> db.contains(e) by {
            if da.contains(e) {
                let k = choose|k: int| 0 <= k < da.len() && da[k] == e;
                assert(a[k] == e);
                assert(a.contains(e));
                assert(b.contains(e));
                let m = choose|m: int| 0 <= m < b.len() && b[m] == e;
                assert(a[k].0 != a[a.len() - 1].0);
                assert(m != b.len() - 1);
                assert(db[m] == e);
            }
            if db.contains(e) {
                let k = choose|k: int| 0 <= k < db.len() && db[k] == e;
                assert(b[k] == e);
                assert(b.contains(e));
                assert(a.contains(e));
                let m = choose|m: int| 0 <= m < a.len() && a[m] == e;
                assert(b[k].0 != b[b.len() - 1].0);
                assert(e.0 != la.0);
                assert(m != a.len() - 1);
                assert(da[m] == e);
            }
        }
        lemma_ordered_items_unique(da, db);
        assert(a =~= da.push(la));
        assert(b =~= db.push(lb));
    }
}

/// The folder names do not depend on the order in which the tags come:
/// two lists of the same tags, no id twice in either, get the same names.
pub proof fn law_folder_names_ignore_tag_order(t1: Seq<(i64, &str)>, t2: Seq<(i64, &str)>)
    requires
        ids_distinct(tags_view(t1)),
        ids_distinct(tags_view(t2)),
        forall|e: (i64, Seq<char>)| #[trigger] tags_view(t1).contains(e) <==> tags_view(t2).contains(e),
    ensures
        folder_names_model(t1) == folder_names_model(t2),
{
    lemma_by_id_items(tags_view(t1));
    lemma_by_id_items(tags_view(t2));
    let a = by_id(tags_view(t1));
    let b = by_id(tags_view(t2));
    assert forall|e: (i64, Seq<char>)| #[trigger] a.contains(e) <==> b.contains(e) by {
        assert(a.contains(e) <==> tags_view(t1).contains(e));
        assert(b.contains(e) <==> tags_view(t2).contains(e));
    }
    lemma_ordered_items_unique(a, b);
}

proof fn lemma_insert_by_id_bound(s: Seq<(i64, Seq<char>)>, x: (i64, Seq<char>), bound: i64)
    requires
        forall|k: int| 0 <= k < s.len() ==> (#[trigger] s[k]).0 < bound,
        x.0 < bound,
    ensures
        forall|k: int| 0 <= k < insert_by_id(s, x).len() ==> (#[trigger] insert_by_id(s, x)[k]).0 < bound,
    decreases s.len(),
{
    lemma_insert_by_id_len(s, x);
    if s.len() > 0 && s.last().0 > x.0 {
        let d = s.drop_last();
        assert forall|k: int| 0 <= k < d.len() implies (#[trigger] d[k]).0 < bound by {
            assert(d[k] == s[k]);
        }
        lemma_insert_by_id_bound(d, x, bound);
        lemma_insert_by_id_len(d, x);
        let r = insert_by_id(s, x);
        assert forall|k: int| 0 <= k < r.len() implies (#[trigger] r[k]).0 < bound by {
            if k < r.len() - 1 {
                assert(r[k] == insert_by_id(d, x)[k]);
            } else {
                assert(r[k] == s.last());
                assert(s[s.len() - 1] == s.last());
            }
        }
    } else {
        let r = insert_by_id(s, x);
        assert forall|k: int| 0 <= k < r.len() implies (#[trigger] r[k]).0 < bound by {
            if k < s.len() {
                assert(r[k] == s[k]);
            }
        }
    }
}

/// Every id that `by_id` gives is below a bound on the ids it was given.
proof fn lemma_by_id_bound(s: Seq<(i64, Seq<char>)>, bound: i64)
    requires
        forall|k: int| 0 <= k < s.len() ==> (#[trigger] s[k]).0 < bound,
    ensures
        forall|k: int| 0 <= k < by_id(s).len() ==> (#[trigger] by_id(s)[k]).0 < bound,
    decreases s.len(),
{
    if s.len() > 0 {
        let d = s.drop_last();
        assert forall|k: int| 0 <= k < d.len() implies (#[trigger] d[k]).0 < bound by {
            assert(d[k] == s[k]);
        }
        lemma_by_id_bound(d, bound);
        assert(s[s.len() - 1] == s.last());
        lemma_insert_by_id_bound(by_id(d), s.last(), bound);
    }
}

/// The folders are named for the ids given, so for none at or past a
/// bound on them.
proof fn lemma_assign_folders_ids(t: Seq<(i64, Seq<char>)>, bound: i64)
    requires
        forall|k: int| 0 <= k < t.len() ==> (#[trigger] t[k]).0 < bound,
    ensures
        forall|id: i64| #[trigger] assign_folders(t).0.contains_key(id) ==> id < bound,
    decreases t.len(),
{
    if t.len() > 0 {
        let d = t.drop_last();
        assert forall|k: int| 0 <= k < d.len() implies (#[trigger] d[k]).0 < bound by {
            assert(d[k] == t[k]);
        }
        lemma_assign_folders_ids(d, bound);
        assert(t[t.len() - 1] == t.last());
        let (names, taken) = assign_folders(d);
        let base = sanitize_model(t.last().1);
        let n = first_free(unicode_lowercase(base), taken);
        assert(assign_folders(t).0 == names.insert(t.last().0, suffixed(base, n)));
    }
}

/// Folder names are stable across exports: a tag created later (so with
/// a greater id than every tag there was) leaves every existing tag's
/// folder name as it was.
pub proof fn law_folder_names_stable(tags: Seq<(i64, &str)>, later: (i64, &str))
    requires
        forall|k: int| 0 <= k < tags.len() ==> (#[trigger] tags[k]).0 < later.0,
    ensures
        forall|id: i64| #[trigger] folder_names_model(tags).contains_key(id) ==> folder_names_model(
            tags.push(later),
        ).contains_key(id) && folder_names_model(tags.push(later))[id] == folder_names_model(tags)[id],
{
    let tv = tags_view(tags);
    let x = (later.0, later.1@);
    assert(tags_view(tags.push(later)) =~= tv.push(x));
    assert(tv.push(x).drop_last() =~= tv);
    assert forall|k: int| 0 <= k < tv.len() implies (#[trigger] tv[k]).0 < later.0 by {
        assert(tv[k].0 == tags[k].0);
    }
    lemma_by_id_bound(tv, later.0);
    let b = by_id(tv);
    lemma_by_id_len(tv);
    if b.len() > 0 {
        assert(b[b.len() - 1] == b.last());
    }
    assert(by_id(tv.push(x)) == b.push(x));
    assert(b.push(x).drop_last() =~= b);
    lemma_assign_folders_ids(b, later.0);
}

/// What the folder assignment has taken once the first `j` tags (in id
/// order) are named: every suffix up to and including the one each of
/// them got, of its key.
proof fn lemma_taken_grows(t: Seq<(i64, Seq<char>)>, i: int, j: int)
    requires
        0 <= i < j <= t.len(),
    ensures
        forall|k: nat|
            1 <= k <= first_free(
                unicode_lowercase(sanitize_model(t[i].1)),
                assign_folders(t.take(i)).1,
            ) ==> assign_folders(t.take(j)).1.contains(
                #[trigger] suffixed(unicode_lowercase(sanitize_model(t[i].1)), k),
            ),
    decreases j - i,
{
    let key = unicode_lowercase(sanitize_model(t[i].1));
    if j == i + 1 {
        let pre = t.take(i);
        lemma_folder_choices(pre);
        lemma_first_free_from(key, assign_folders(pre).1, 1, Set::empty());
        assert(t.take(j).drop_last() =~= pre);
        assert(t.take(j).last() == t[i]);
    } else {
        lemma_taken_grows(t, i, j - 1);
        assert(t.take(j).drop_last() =~= t.take(j - 1));
    }
}

/// The folder chosen for the tag at position `j` (in id order), when no
/// later tag has its id.
proof fn lemma_choice_at(t: Seq<(i64, Seq<char>)>, j: int)
    requires
        0 <= j < t.len(),
        forall|k: int| j < k < t.len() ==> (#[trigger] t[k]).0 != t[j].0,
    ensures
        folder_choices(t).contains_key(t[j].0),
        folder_choices(t)[t[j].0] == (
            sanitize_model(t[j].1),
            first_free(unicode_lowercase(sanitize_model(t[j].1)), assign_folders(t.take(j)).1),
        ),
    decreases t.len(),
{
    if j == t.len() - 1 {
        assert(t.drop_last() =~= t.take(j));
    } else {
        let d = t.drop_last();
        assert forall|k: int| j < k < d.len() implies (#[trigger] d[k]).0 != d[j].0 by {
            assert(d[k] == t[k] && d[j] == t[j]);
        }
        lemma_choice_at(d, j);
        assert(d.take(j) =~= t.take(j));
        assert(d[j] == t[j]);
        assert(t[t.len() - 1] == t.last());
    }
}

/// On a clash the later tag, in the order of ids, is numbered: a tag
/// whose case-insensitive sanitised name an earlier tag already had gets
/// a suffix ` (2)` or higher, so the tag with the lower id keeps the name.
pub proof fn law_later_clash_is_numbered(tags: Seq<(i64, &str)>, i: int, j: int)
    requires
        0 <= i < j < by_id(tags_view(tags)).len(),
        unicode_lowercase(sanitize_model(by_id(tags_view(tags))[i].1)) == unicode_lowercase(
            sanitize_model(by_id(tags_view(tags))[j].1),
        ),
        forall|k: int|
            j < k < by_id(tags_view(tags)).len() ==> (#[trigger] by_id(tags_view(tags))[k]).0 != by_id(
                tags_view(tags),
            )[j].0,
    ensures
        folder_choices(by_id(tags_view(tags))).contains_key(by_id(tags_view(tags))[j].0),
        folder_choices(by_id(tags_view(tags)))[by_id(tags_view(tags))[j].0].1 >= 2,
{
    let t = by_id(tags_view(tags));
    let key = unicode_lowercase(sanitize_model(t[i].1));
    lemma_choice_at(t, j);
    lemma_taken_grows(t, i, j);
    let pre_i = t.take(i);
    lemma_folder_choices(pre_i);
    lemma_first_free_from(key, assign_folders(pre_i).1, 1, Set::empty());
    let pre_j = t.take(j);
    lemma_folder_choices(pre_j);
    lemma_first_free_from(key, assign_folders(pre_j).1, 1, Set::empty());
    assert(assign_folders(pre_j).1.contains(suffixed(key, 1)));
}

} // verus!
