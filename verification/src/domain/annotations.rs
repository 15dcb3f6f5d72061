//! Highlighted passages with optional comments. A highlight covers
//! `start..end` of one section's stored text, in UTF-16 code units (as the
//! outline's offsets). Its quote is kept so that the passage can be found
//! again when the stored text changes: `resolve` places each highlight on
//! the current text, and marks it detached when the quote is gone.
use vstd::prelude::*;
use vstd::multiset::Multiset;
use crate::domain::outline::{
    word_at_exec,
    claim_blocks, claim_label, claim_model, description_blocks, description_model, utf16_len,
    word_at, Block, BlockKind, BlockModel, ClaimModel,
};
use crate::domain::storage::StorageError;
use crate::domain::tags::{blank_to_none, blank_to_none_exec, opt_str_view};
use crate::text::{
    chars_of, lemma_utf16_sub, opt_seq, slice_vec, str_eq, string_of, trim, trim_str, utf16_count,
    utf16_range,
};

verus! {

broadcast use vstd::string::group_string_axioms;

/// The sections a highlight can be made in, in reading order.
pub const SECTIONS: [&'static str; 4] = ["title", "abstract", "description", "claims"];

/// The highlight colours.
pub const COLORS: [&'static str; 4] = ["yellow", "green", "blue", "pink"];

// ---------------------------------------------------------------------------
// UTF-16 offsets
// ---------------------------------------------------------------------------

/// The character index of `t` at which `u` UTF-16 units have passed, when
/// `u` falls on a character boundary.
pub open spec fn unit_boundary(t: Seq<char>, u: int) -> Option<int> {
    if exists|i: int| 0 <= i <= t.len() && utf16_count(t.take(i)) == u {
        Some(choose|i: int| 0 <= i <= t.len() && utf16_count(t.take(i)) == u)
    } else {
        None
    }
}

/// `t[start..end]` in UTF-16 units: none for an empty or out-of-range
/// span, or one that splits a surrogate pair.
pub open spec fn utf16_slice_model(t: Seq<char>, start: int, end: int) -> Option<Seq<char>> {
    if start >= end {
        None
    } else {
        match (unit_boundary(t, start), unit_boundary(t, end)) {
            (Some(i), Some(j)) => Some(t.subrange(i, j)),
            _ => None,
        }
    }
}

/// The UTF-16 length of a prefix grows with the prefix.
pub proof fn lemma_prefix_units_grow(t: Seq<char>, i: int, k: int)
    requires
        0 <= i < k <= t.len(),
    ensures
        utf16_count(t.take(i)) < utf16_count(t.take(k)),
{
    lemma_utf16_sub(t, i, k);
}

/// A prefix length in UTF-16 units names at most one prefix.
pub proof fn lemma_unit_boundary(t: Seq<char>, i: int)
    requires
        0 <= i <= t.len(),
    ensures
        unit_boundary(t, utf16_count(t.take(i)) as int) == Some(i),
{
    let u = utf16_count(t.take(i)) as int;
    assert(exists|k: int| 0 <= k <= t.len() && utf16_count(t.take(k)) == u);
    let k = choose|k: int| 0 <= k <= t.len() && utf16_count(t.take(k)) == u;
    if k < i {
        lemma_prefix_units_grow(t, k, i);
    } else if k > i {
        lemma_prefix_units_grow(t, i, k);
    }
}

/// The character index at which `u` UTF-16 units of `v` have passed.
fn unit_index(v: &[char], u: usize) -> (r: Option<usize>)
    ensures
        match r {
            Some(i) => unit_boundary(v@, u as int) == Some(i as int) && i <= v.len(),
            None => unit_boundary(v@, u as int) is None,
        },
{
    let mut i: usize = 0;
    let mut acc: u128 = 0;
    assert(v@.take(0) =~= Seq::<char>::empty());
    while i < v.len() && acc < u as u128
        invariant
            i <= v.len(),
            acc == utf16_count(v@.take(i as int)),
            acc <= 2 * i,
            forall|k: int| 0 <= k < i ==> utf16_count(#[trigger] v@.take(k)) < u,
        decreases v.len() - i,
    {
        assert(v@.take(i + 1).drop_last() =~= v@.take(i as int));
        assert(v@.take(i + 1).last() == v@[i as int]);
        if (v[i] as u32) >= 0x10000 {
            acc = acc + 2;
        } else {
            acc = acc + 1;
        }
        i += 1;
    }
    if acc == u as u128 {
        proof {
            lemma_unit_boundary(v@, i as int);
        }
        Some(i)
    } else {
        proof {
            assert forall|k: int| 0 <= k <= v.len() implies utf16_count(#[trigger] v@.take(k)) != u by {
                if k < i {
                } else if k > i {
                    lemma_prefix_units_grow(v@, i as int, k);
                }
            }
        }
        None
    }
}

/// `text[start..end]` in UTF-16 units, as `utf16_slice_model` says.
pub fn utf16_slice(text: &str, start: usize, end: usize) -> (r: Option<String>)
    ensures
        opt_seq(r) == utf16_slice_model(text@, start as int, end as int),
{
    if start >= end {
        return None;
    }
    let v = chars_of(text);
    match (unit_index(v.as_slice(), start), unit_index(v.as_slice(), end)) {
        (Some(i), Some(j)) => {
            if i > j {
                // Boundaries keep their order, so this cannot happen.
                proof {
                    lemma_prefix_units_grow(v@, j as int, i as int);
                }
                return None;
            }
            let piece = slice_vec(v.as_slice(), i, j);
            Some(string_of(piece.as_slice()))
        },
        _ => None,
    }
}


// ---------------------------------------------------------------------------
// Finding a quote again
// ---------------------------------------------------------------------------

/// Every occurrence of `q` in `t` from `from` on, by character index,
/// leftmost first, overlapping ones included; an empty pattern occurs at
/// every character boundary.
pub open spec fn match_positions(t: Seq<char>, q: Seq<char>, from: int) -> Seq<int>
    decreases t.len() + 1 - from,
{
    if from < 0 || from + q.len() > t.len() {
        Seq::empty()
    } else if word_at(t, from, q) {
        seq![from] + match_positions(t, q, from + 1)
    } else {
        match_positions(t, q, from + 1)
    }
}

pub open spec fn dist(a: int, b: int) -> int {
    if a >= b {
        a - b
    } else {
        b - a
    }
}

/// The first of `ps` closest to `to`.
pub open spec fn nearest(ps: Seq<int>, to: int) -> Option<int>
    decreases ps.len(),
{
    if ps.len() == 0 {
        None
    } else {
        match nearest(ps.drop_last(), to) {
            None => Some(ps.last()),
            Some(b) => if dist(ps.last(), to) < dist(b, to) {
                Some(ps.last())
            } else {
                Some(b)
            },
        }
    }
}

/// Character positions of `t` as UTF-16 offsets.
pub open spec fn unit_positions(t: Seq<char>, ps: Seq<int>) -> Seq<int> {
    ps.map_values(|p: int| utf16_count(t.take(p)) as int)
}

/// Where `q` is in `t`: at `start..end` if it is still there, else at the
/// occurrence closest to `start`.
pub open spec fn locate_model(t: Seq<char>, q: Seq<char>, start: int, end: int) -> Option<(int, int)> {
    if utf16_slice_model(t, start, end) == Some(q) {
        Some((start, end))
    } else {
        match nearest(unit_positions(t, match_positions(t, q, 0)), start) {
            Some(p) => Some((p, p + utf16_count(q))),
            None => None,
        }
    }
}

pub open spec fn opt_pair(o: Option<(usize, usize)>) -> Option<(int, int)> {
    match o {
        Some((a, b)) => Some((a as int, b as int)),
        None => None,
    }
}

/// Where `quote` is in `text`: at the stored position `start..end` if it
/// is still there, else the occurrence closest to it; none when the quote
/// is gone.
pub fn locate(text: &str, quote: &str, start: usize, end: usize) -> (r: Option<(usize, usize)>)
    requires
        utf16_count(text@) <= usize::MAX,
    ensures
        opt_pair(r) == locate_model(text@, quote@, start as int, end as int),
{
    match utf16_slice(text, start, end) {
        Some(s) => {
            if str_eq(s.as_str(), quote) {
                return Some((start, end));
            }
        },
        None => {},
    }
    let t = chars_of(text);
    let q = chars_of(quote);
    let tlen = t.len();
    let qlen = q.len();
    let ghost all = match_positions(t@, q@, 0);
    let ghost mut collected: Seq<int> = Seq::empty();
    let mut best: Option<(usize, usize)> = None;
    let mut from: usize = 0;
    let mut u: usize = 0;
    assert(t@.take(0) =~= Seq::<char>::empty());
    assert(collected + match_positions(t@, q@, 0) =~= all);
    let mut done = false;
    while !done && qlen <= tlen && from <= tlen - qlen
        invariant
            tlen == t@.len(),
            qlen == q@.len(),
            t@ == text@,
            q@ == quote@,
            utf16_count(t@) <= usize::MAX,
            from <= tlen,
            u == utf16_count(t@.take(from as int)),
            !done ==> collected + match_positions(t@, q@, from as int) == all,
            done ==> collected == all,
            all == match_positions(t@, q@, 0),
            match best {
                None => nearest(unit_positions(t@, collected), start as int) is None,
                Some((a, b)) => nearest(unit_positions(t@, collected), start as int) == Some(a as int) && b == a
                    + utf16_count(q@),
            },
        decreases tlen + 1 - from - (if done { 1int } else { 0int }),
    {
        let ghost here = match_positions(t@, q@, from as int);
        proof {
            lemma_utf16_sub(t@, 0, from as int);
            assert(t@.subrange(0, from as int) =~= t@.take(from as int));
        }
        if word_at_exec(t.as_slice(), from, q.as_slice()) {
            proof {
                lemma_utf16_sub(t@, from as int, from + qlen);
                lemma_utf16_sub(t@, 0, from + qlen);
                assert(t@.subrange(0, from + qlen) =~= t@.take(from + qlen));
            }
            let qunits = utf16_range(t.as_slice(), from, from + qlen);
            let d = if u >= start {
                u - start
            } else {
                start - u
            };
            let better = match best {
                None => true,
                Some((b, _)) => {
                    let db = if b >= start {
                        b - start
                    } else {
                        start - b
                    };
                    d < db
                },
            };
            if better {
                best = Some((u, u + qunits));
            }
            proof {
                let old_c = collected;
                collected = collected.push(from as int);
                assert(unit_positions(t@, collected) =~= unit_positions(t@, old_c).push(u as int));
                assert(unit_positions(t@, collected).drop_last() =~= unit_positions(t@, old_c));
                assert(here == seq![from as int] + match_positions(t@, q@, from + 1));
                assert(collected + match_positions(t@, q@, from + 1) =~= old_c + here);
            }
        } else {
            proof {
                if qlen == 0 {
                    assert(t@.subrange(from as int, from as int) =~= q@);
                }
                assert(from < tlen);
                assert(here == match_positions(t@, q@, from + 1));
            }
        }
        if from == tlen {
            assert(match_positions(t@, q@, from + 1) =~= Seq::<int>::empty());
            assert(collected =~= all);
            done = true;
        } else {
            proof {
                assert(t@.take(from + 1).drop_last() =~= t@.take(from as int));
                lemma_utf16_sub(t@, 0, from + 1);
                assert(t@.subrange(0, from + 1) =~= t@.take(from + 1));
            }
            if (t[from] as u32) >= 0x10000 {
                u = u + 2;
            } else {
                u = u + 1;
            }
            from = from + 1;
        }
    }
    if !done {
        assert(match_positions(t@, q@, from as int) =~= Seq::<int>::empty());
        assert(collected + Seq::<int>::empty() =~= collected);
    }
    best
}


// ---------------------------------------------------------------------------
// Sections and locations
// ---------------------------------------------------------------------------

/// The stored text of each highlightable section of a document.
#[derive(Debug, Clone, PartialEq)]
pub struct SectionTexts {
    pub title: Option<String>,
    pub abstract_text: Option<String>,
    pub description: Option<String>,
    pub claims: Option<String>,
}

impl Default for SectionTexts {
    fn default() -> (r: Self)
        ensures
            r.title is None,
            r.abstract_text is None,
            r.description is None,
            r.claims is None,
    {
        SectionTexts { title: None, abstract_text: None, description: None, claims: None }
    }
}

/// The text of `section` (`title`, `abstract`, `description` or `claims`).
pub open spec fn section_text(t: SectionTexts, section: Seq<char>) -> Option<Seq<char>> {
    if section == "title"@ {
        opt_seq(t.title)
    } else if section == "abstract"@ {
        opt_seq(t.abstract_text)
    } else if section == "description"@ {
        opt_seq(t.description)
    } else if section == "claims"@ {
        opt_seq(t.claims)
    } else {
        None
    }
}

/// Every text of `t` has a UTF-16 length that a `usize` holds.
pub open spec fn texts_fit(t: SectionTexts) -> bool {
    forall|section: Seq<char>| #[trigger] section_text(t, section) matches Some(x) ==> utf16_count(x) < usize::MAX
}

fn opt_str<'a>(o: &'a Option<String>) -> (r: Option<&'a str>)
    ensures
        opt_str_view(r) == opt_seq(*o),
{
    match o {
        Some(s) => Some(s.as_str()),
        None => None,
    }
}

impl SectionTexts {
    /// The text of one section; none for another name or a missing text.
    pub fn get(&self, section: &str) -> (r: Option<&str>)
        ensures
            opt_str_view(r) == section_text(*self, section@),
    {
        if str_eq(section, "title") {
            opt_str(&self.title)
        } else if str_eq(section, "abstract") {
            opt_str(&self.abstract_text)
        } else if str_eq(section, "description") {
            opt_str(&self.description)
        } else if str_eq(section, "claims") {
            opt_str(&self.claims)
        } else {
            None
        }
    }
}

/// The first span holding `at`.
pub open spec fn first_holding(spans: Seq<(int, int)>, at: int) -> Option<int>
    decreases spans.len(),
{
    if spans.len() == 0 {
        None
    } else {
        match first_holding(spans.drop_last(), at) {
            Some(k) => Some(k),
            None => if spans.last().0 <= at < spans.last().1 {
                Some(spans.len() - 1)
            } else {
                None
            },
        }
    }
}

pub proof fn lemma_first_holding_prefix(s: Seq<(int, int)>, k: int, at: int)
    requires
        0 <= k <= s.len(),
        first_holding(s.take(k), at) is Some,
    ensures
        first_holding(s, at) == first_holding(s.take(k), at),
    decreases s.len(),
{
    if k == s.len() {
        assert(s.take(k) =~= s);
    } else {
        assert(s.drop_last().take(k) =~= s.take(k));
        lemma_first_holding_prefix(s.drop_last(), k, at);
    }
}

pub open spec fn block_spans(m: Seq<BlockModel>) -> Seq<(int, int)> {
    m.map_values(|b: BlockModel| (b.start, b.end))
}

pub open spec fn claim_spans(m: Seq<ClaimModel>) -> Seq<(int, int)> {
    m.map_values(|c: ClaimModel| (c.start, c.end))
}

pub open spec fn exec_spans(bs: Seq<Block>) -> Seq<(int, int)> {
    bs.map_values(|b: Block| (b.start as int, b.end as int))
}

/// `Title`, `Abstract`, `Description [0012]`, `Description, heading`,
/// `Claim 3` or `Claims`, from the block holding `start`; without the text,
/// only the section.
pub open spec fn location_model(section: Seq<char>, text: Option<Seq<char>>, start: int) -> Seq<char> {
    if section == "title"@ {
        "Title"@
    } else if section == "abstract"@ {
        "Abstract"@
    } else if section == "description"@ {
        match text {
            Some(t) => {
                let m = description_model(t);
                match first_holding(block_spans(m), start) {
                    Some(k) => if m[k].kind == BlockKind::Heading {
                        "Description, heading"@
                    } else {
                        match m[k].label {
                            Some(n) => "Description ["@ + n + "]"@,
                            None => "Description"@,
                        }
                    },
                    None => "Description"@,
                }
            },
            None => "Description"@,
        }
    } else if section == "claims"@ {
        match text {
            Some(t) => {
                let m = claim_model(t);
                match first_holding(claim_spans(m), start) {
                    Some(k) => match claim_label(m[k].own) {
                        Some(n) => "Claim "@ + n,
                        None => "Claims"@,
                    },
                    None => "Claims"@,
                }
            },
            None => "Claims"@,
        }
    } else {
        "Description"@
    }
}

/// The first of `blocks` whose span holds `at`.
fn find_block(blocks: &Vec<Block>, at: usize) -> (r: Option<usize>)
    ensures
        match r {
            Some(k) => first_holding(exec_spans(blocks@), at as int) == Some(k as int) && k < blocks@.len(),
            None => first_holding(exec_spans(blocks@), at as int) is None,
        },
{
    let ghost sp = exec_spans(blocks@);
    let mut i: usize = 0;
    assert(sp.take(0) =~= Seq::<(int, int)>::empty());
    while i < blocks.len()
        invariant
            i <= blocks@.len(),
            sp == exec_spans(blocks@),
            first_holding(sp.take(i as int), at as int) is None,
        decreases blocks.len() - i,
    {
        assert(sp.take(i + 1).drop_last() =~= sp.take(i as int));
        assert(sp.take(i + 1).last() == (blocks@[i as int].start as int, blocks@[i as int].end as int));
        if blocks[i].start <= at && at < blocks[i].end {
            proof {
                lemma_first_holding_prefix(sp, i + 1, at as int);
            }
            return Some(i);
        }
        i += 1;
    }
    assert(sp.take(i as int) =~= sp);
    None
}

/// Where a highlight is, for lists and exports: `Title`, `Abstract`,
/// `Description [0012]`, `Description, heading`, `Claim 3` or `Claims`,
/// from the block holding `start`. Without the text (a detached
/// highlight), only the section.
pub fn location(section: &str, text: Option<&str>, start: usize) -> (r: String)
    requires
        text matches Some(t) ==> utf16_count(t@) < usize::MAX,
    ensures
        r@ == location_model(section@, opt_str_view(text), start as int),
{
    if str_eq(section, "title") {
        return "Title".to_owned();
    }
    if str_eq(section, "abstract") {
        return "Abstract".to_owned();
    }
    if str_eq(section, "description") {
        match text {
            Some(t) => {
                let blocks = description_blocks(t);
                let ghost m = description_model(t@);
                assert(exec_spans(blocks@) =~= block_spans(m)) by {
                    assert forall|k: int| 0 <= k < blocks@.len() implies #[trigger] exec_spans(blocks@)[k]
                        == block_spans(m)[k] by {
                        assert(blocks@[k]@ == m[k]);
                    }
                }
                match find_block(&blocks, start) {
                    Some(k) => {
                        assert(blocks@[k as int]@ == m[k as int]);
                        match blocks[k].kind {
                            BlockKind::Heading => {
                                return "Description, heading".to_owned();
                            },
                            _ => {},
                        }
                        match &blocks[k].label {
                            Some(n) => {
                                let mut s = "Description [".to_owned();
                                crate::text::push_str(&mut s, n.as_str());
                                crate::text::push_str(&mut s, "]");
                                return s;
                            },
                            None => {
                                return "Description".to_owned();
                            },
                        }
                    },
                    None => {
                        return "Description".to_owned();
                    },
                }
            },
            None => {
                return "Description".to_owned();
            },
        }
    }
    if str_eq(section, "claims") {
        match text {
            Some(t) => {
                let blocks = claim_blocks(t);
                let ghost m = claim_model(t@);
                assert(exec_spans(blocks@) =~= claim_spans(m)) by {
                    assert forall|k: int| 0 <= k < blocks@.len() implies #[trigger] exec_spans(blocks@)[k]
                        == claim_spans(m)[k] by {
                        assert(crate::domain::outline::claim_block_matches(blocks@[k], m[k]));
                    }
                }
                match find_block(&blocks, start) {
                    Some(k) => {
                        assert(crate::domain::outline::claim_block_matches(blocks@[k as int], m[k as int]));
                        match &blocks[k].label {
                            Some(n) => {
                                let mut s = "Claim ".to_owned();
                                crate::text::push_str(&mut s, n.as_str());
                                return s;
                            },
                            None => {
                                return "Claims".to_owned();
                            },
                        }
                    },
                    None => {
                        return "Claims".to_owned();
                    },
                }
            },
            None => {
                return "Claims".to_owned();
            },
        }
    }
    "Description".to_owned()
}


// ---------------------------------------------------------------------------
// Highlights
// ---------------------------------------------------------------------------

#[derive(Debug, Clone, PartialEq)]
pub struct Annotation {
    pub id: i64,
    pub doc_id: i64,
    pub section: String,
    /// Current position in the section's text; the stored one when
    /// `detached`.
    pub start: usize,
    pub end: usize,
    pub quote: String,
    pub comment: Option<String>,
    pub color: String,
    pub created_at: String,
    pub updated_at: String,
    /// The quote no longer appears in the section's text, so the highlight
    /// cannot be drawn. It is kept, with its quote and comment.
    pub detached: bool,
    /// Where the highlight is, for lists and exports.
    pub location: String,
}

#[derive(Debug)]
pub enum AnnotationError {
    Storage(StorageError),
    DocumentNotFound(i64),
    NotFound(i64),
    UnknownSection(String),
    UnknownColor(String),
    NoText(String),
    InvalidRange,
}

impl From<crate::domain::storage::StorageError> for AnnotationError {
    fn from(e: crate::domain::storage::StorageError) -> (r: Self) {
        AnnotationError::Storage(e)
    }
}

impl vstd::std_specs::convert::FromSpecImpl<crate::domain::storage::StorageError> for AnnotationError {
    open spec fn obeys_from_spec() -> bool {
        true
    }

    open spec fn from_spec(e: crate::domain::storage::StorageError) -> AnnotationError {
        AnnotationError::Storage(e)
    }
}

impl From<rusqlite::Error> for AnnotationError {
    fn from(e: rusqlite::Error) -> (r: Self) {
        AnnotationError::Storage(crate::domain::storage::StorageError::Sqlite(e))
    }
}

impl vstd::std_specs::convert::FromSpecImpl<rusqlite::Error> for AnnotationError {
    open spec fn obeys_from_spec() -> bool {
        true
    }

    open spec fn from_spec(e: rusqlite::Error) -> AnnotationError {
        AnnotationError::Storage(crate::domain::storage::StorageError::Sqlite(e))
    }
}

/// A highlight as stored: the passage where it was made.
#[derive(Debug, Clone, PartialEq)]
pub struct Stored {
    pub id: i64,
    pub doc_id: i64,
    pub section: String,
    pub start: usize,
    pub end: usize,
    pub quote: String,
    pub comment: Option<String>,
    pub color: String,
    pub created_at: String,
    pub updated_at: String,
}

pub open spec fn is_section(s: Seq<char>) -> bool {
    s == "title"@ || s == "abstract"@ || s == "description"@ || s == "claims"@
}

pub open spec fn is_color(c: Seq<char>) -> bool {
    c == "yellow"@ || c == "green"@ || c == "blue"@ || c == "pink"@
}

/// Where a stored highlight is on the current texts.
pub open spec fn found_at(stored: Stored, texts: SectionTexts) -> Option<(int, int)> {
    match section_text(texts, stored.section@) {
        Some(t) => locate_model(t, stored.quote@, stored.start as int, stored.end as int),
        None => None,
    }
}

/// Places a stored highlight on the current texts: at its quote where the
/// quote still is (the stored position, or else the nearest occurrence),
/// and detached at its stored position where it is gone.
pub fn resolve(stored: Stored, texts: &SectionTexts) -> (r: Annotation)
    requires
        texts_fit(*texts),
    ensures
        r.id == stored.id,
        r.doc_id == stored.doc_id,
        r.section == stored.section,
        r.quote == stored.quote,
        r.comment == stored.comment,
        r.color == stored.color,
        r.created_at == stored.created_at,
        r.updated_at == stored.updated_at,
        r.detached == (found_at(stored, *texts) is None),
        (r.start as int, r.end as int) == match found_at(stored, *texts) {
            Some(p) => p,
            None => (stored.start as int, stored.end as int),
        },
        r.location@ == location_model(
            stored.section@,
            if found_at(stored, *texts) is Some {
                section_text(*texts, stored.section@)
            } else {
                None
            },
            r.start as int,
        ),
{
    let text = texts.get(stored.section.as_str());
    let found = match text {
        Some(t) => {
            assert(section_text(*texts, stored.section@) matches Some(x) && utf16_count(x) < usize::MAX);
            locate(t, stored.quote.as_str(), stored.start, stored.end)
        },
        None => None,
    };
    let (start, end) = match found {
        Some(p) => p,
        None => (stored.start, stored.end),
    };
    let shown = match found {
        Some(_) => text,
        None => None,
    };
    let location = location(stored.section.as_str(), shown, start);
    Annotation {
        id: stored.id,
        doc_id: stored.doc_id,
        section: stored.section,
        start,
        end,
        quote: stored.quote,
        comment: stored.comment,
        color: stored.color,
        created_at: stored.created_at,
        updated_at: stored.updated_at,
        detached: found.is_none(),
        location,
    }
}

/// Every position that `match_positions` lists holds the pattern.
proof fn lemma_match_positions_hold(t: Seq<char>, q: Seq<char>, from: int)
    ensures
        forall|i: int|
            0 <= i < match_positions(t, q, from).len() ==> word_at(t, #[trigger] match_positions(t, q, from)[i], q),
    decreases t.len() + 1 - from,
{
    if from < 0 || from + q.len() > t.len() {
    } else {
        lemma_match_positions_hold(t, q, from + 1);
        let rest = match_positions(t, q, from + 1);
        if word_at(t, from, q) {
            assert(match_positions(t, q, from) == seq![from] + rest);
            assert forall|i: int| 0 <= i < match_positions(t, q, from).len() implies word_at(
                t,
                #[trigger] match_positions(t, q, from)[i],
                q,
            ) by {
                if i > 0 {
                    assert(match_positions(t, q, from)[i] == rest[i - 1]);
                }
            }
        } else {
            assert(match_positions(t, q, from) == rest);
        }
    }
}

/// Every occurrence at or after `from` is listed.
proof fn lemma_match_positions_complete(t: Seq<char>, q: Seq<char>, from: int, c: int)
    requires
        0 <= from <= c,
        word_at(t, c, q),
    ensures
        match_positions(t, q, from).contains(c),
    decreases c - from,
{
    let rest = match_positions(t, q, from + 1);
    if from == c {
        assert(match_positions(t, q, from) == seq![from] + rest);
        assert(match_positions(t, q, from)[0] == c);
    } else {
        lemma_match_positions_complete(t, q, from + 1, c);
        let k = choose|k: int| 0 <= k < rest.len() && rest[k] == c;
        if word_at(t, from, q) {
            assert(match_positions(t, q, from) == seq![from] + rest);
            assert(match_positions(t, q, from)[k + 1] == c);
        } else {
            assert(match_positions(t, q, from) == rest);
        }
    }
}

/// What `nearest` picks is at least as close as every position.
proof fn lemma_nearest_min(ps: Seq<int>, to: int)
    ensures
        nearest(ps, to) matches Some(p) ==> forall|k: int| 0 <= k < ps.len() ==> dist(p, to) <= dist(#[trigger] ps[k], to),
    decreases ps.len(),
{
    if ps.len() > 0 {
        let d = ps.drop_last();
        lemma_nearest_min(d, to);
        lemma_nearest_member(d, to);
        let p = nearest(ps, to)->0;
        assert forall|k: int| 0 <= k < ps.len() implies dist(p, to) <= dist(#[trigger] ps[k], to) by {
            if k < ps.len() - 1 {
                assert(ps[k] == d[k]);
            } else {
                assert(ps[k] == ps.last());
            }
        }
    }
}

/// An occurrence at or after `from` leaves `match_positions` non-empty.
proof fn lemma_match_positions_found(t: Seq<char>, q: Seq<char>, from: int, c: int)
    requires
        0 <= from <= c,
        word_at(t, c, q),
    ensures
        match_positions(t, q, from).len() > 0,
    decreases c - from,
{
    if !word_at(t, from, q) {
        lemma_match_positions_found(t, q, from + 1, c);
    }
}

/// What `nearest` picks is one of the positions.
proof fn lemma_nearest_member(ps: Seq<int>, to: int)
    ensures
        ps.len() > 0 <==> nearest(ps, to) is Some,
        nearest(ps, to) matches Some(p) ==> ps.contains(p),
    decreases ps.len(),
{
    if ps.len() > 0 {
        lemma_nearest_member(ps.drop_last(), to);
        if let Some(b) = nearest(ps.drop_last(), to) {
            let k = choose|k: int| 0 <= k < ps.drop_last().len() && ps.drop_last()[k] == b;
            assert(ps[k] == b);
        }
        assert(ps[ps.len() - 1] == ps.last());
    }
}

/// The UTF-16 span of the characters `c..c + q.len()` of `t`, where `q`
/// stands, gives back `q`.
proof fn lemma_span_of_occurrence(t: Seq<char>, q: Seq<char>, c: int)
    requires
        word_at(t, c, q),
        q.len() > 0,
    ensures
        utf16_slice_model(
            t,
            utf16_count(t.take(c)) as int,
            (utf16_count(t.take(c)) + utf16_count(q)) as int,
        ) == Some(q),
{
    let e = c + q.len();
    lemma_utf16_sub(t, c, e);
    assert(t.subrange(c, e) == q);
    lemma_unit_boundary(t, c);
    lemma_unit_boundary(t, e);
    crate::text::lemma_utf16_bounds(q);
}

/// A highlight follows its quote. Where the quote (not empty) still
/// stands in the section's current text, the highlight is found, and the
/// span it is placed at holds exactly the quote; where the stored span
/// still holds the quote, the highlight stays there; otherwise it moves to
/// an occurrence (overlapping ones included) closest to the stored start.
pub proof fn law_highlight_follows_its_quote(stored: Stored, texts: SectionTexts)
    requires
        stored.quote@.len() > 0,
    ensures
        found_at(stored, texts) matches Some((s, e)) ==> (section_text(texts, stored.section@) matches Some(t)
            && utf16_slice_model(t, s, e) == Some(stored.quote@)),
        (section_text(texts, stored.section@) matches Some(t) && exists|c: int| word_at(t, c, stored.quote@))
            ==> found_at(stored, texts) is Some,
        (section_text(texts, stored.section@) matches Some(t) && utf16_slice_model(
            t,
            stored.start as int,
            stored.end as int,
        ) == Some(stored.quote@)) ==> found_at(stored, texts) == Some((stored.start as int, stored.end as int)),
        section_text(texts, stored.section@) matches Some(t) ==> (found_at(stored, texts) matches Some((s, e))
            ==> (utf16_slice_model(t, stored.start as int, stored.end as int) != Some(stored.quote@) ==> forall|
            c: int|
            #[trigger] word_at(t, c, stored.quote@) ==> dist(s, stored.start as int) <= dist(
                utf16_count(t.take(c)) as int,
                stored.start as int,
            ))),
{
    if let Some(t) = section_text(texts, stored.section@) {
        let q = stored.quote@;
        let ms = match_positions(t, q, 0);
        let us = unit_positions(t, ms);
        lemma_match_positions_hold(t, q, 0);
        lemma_nearest_member(us, stored.start as int);
        lemma_nearest_min(us, stored.start as int);
        if let Some(p) = nearest(us, stored.start as int) {
            let k = choose|k: int| 0 <= k < us.len() && us[k] == p;
            assert(us[k] == utf16_count(t.take(ms[k])) as int);
            assert(word_at(t, ms[k], q));
            lemma_span_of_occurrence(t, q, ms[k]);
            assert forall|c: int| #[trigger] word_at(t, c, q) implies dist(p, stored.start as int) <= dist(
                utf16_count(t.take(c)) as int,
                stored.start as int,
            ) by {
                lemma_match_positions_complete(t, q, 0, c);
                let j = choose|j: int| 0 <= j < ms.len() && ms[j] == c;
                assert(us[j] == utf16_count(t.take(c)) as int);
            }
        }
        if exists|c: int| word_at(t, c, q) {
            let c = choose|c: int| word_at(t, c, q);
            lemma_match_positions_found(t, q, 0, c);
            assert(us.len() == ms.len());
        }
    }
}

/// Accepts one of the highlight colours.
pub fn check_color(color: &str) -> (r: Result<(), AnnotationError>)
    ensures
        r is Ok <==> is_color(color@),
        r matches Err(e) ==> (e matches AnnotationError::UnknownColor(c) && c@ == color@),
{
    if str_eq(color, "yellow") || str_eq(color, "green") || str_eq(color, "blue") || str_eq(color, "pink") {
        Ok(())
    } else {
        Err(AnnotationError::UnknownColor(color.to_owned()))
    }
}

/// A comment trimmed; a blank one is none.
pub fn clean_comment(comment: Option<&str>) -> (r: Option<&str>)
    ensures
        opt_str_view(r) == blank_to_none(comment),
{
    blank_to_none_exec(comment)
}

/// The checks on a new highlight's section and colour, in this order.
pub fn check_request(section: &str, color: &str) -> (r: Result<(), AnnotationError>)
    ensures
        r is Ok <==> is_section(section@) && is_color(color@),
        !is_section(section@) ==> (r matches Err(AnnotationError::UnknownSection(s)) && s@ == section@),
        is_section(section@) && !is_color(color@) ==> (r matches Err(AnnotationError::UnknownColor(c)) && c@
            == color@),
{
    if !(str_eq(section, "title") || str_eq(section, "abstract") || str_eq(section, "description") || str_eq(
        section,
        "claims",
    )) {
        return Err(AnnotationError::UnknownSection(section.to_owned()));
    }
    check_color(color)
}

/// The passage a new highlight of `start..end` of `section` quotes: an
/// error when the section has no text, and when the span is empty, outside
/// the text, splits a character or holds only whitespace.
pub fn quote_for(texts: &SectionTexts, section: &str, start: usize, end: usize) -> (r: Result<
    String,
    AnnotationError,
>)
    ensures
        match section_text(*texts, section@) {
            None => r matches Err(AnnotationError::NoText(s)) && s@ == section@,
            Some(t) => match utf16_slice_model(t, start as int, end as int) {
                None => r matches Err(AnnotationError::InvalidRange),
                Some(q) => if trim(q).len() == 0 {
                    r matches Err(AnnotationError::InvalidRange)
                } else {
                    r matches Ok(x) && x@ == q
                },
            },
        },
{
    let text = match texts.get(section) {
        Some(t) => t,
        None => {
            return Err(AnnotationError::NoText(section.to_owned()));
        },
    };
    let quote = match utf16_slice(text, start, end) {
        Some(q) => q,
        None => {
            return Err(AnnotationError::InvalidRange);
        },
    };
    let trimmed = trim_str(quote.as_str());
    if trimmed.is_empty() {
        return Err(AnnotationError::InvalidRange);
    }
    Ok(quote)
}


// ---------------------------------------------------------------------------
// Reading order
// ---------------------------------------------------------------------------

/// A section's place in reading order; before every section for another
/// name.
pub open spec fn section_rank(s: Seq<char>) -> int {
    if s == "title"@ {
        0
    } else if s == "abstract"@ {
        1
    } else if s == "description"@ {
        2
    } else if s == "claims"@ {
        3
    } else {
        -1
    }
}

/// Whether `a` comes no later than `b` in reading order: by section, then
/// position, then id.
pub open spec fn reads_before(a: Annotation, b: Annotation) -> bool {
    let (ra, rb) = (section_rank(a.section@), section_rank(b.section@));
    ra < rb || (ra == rb && (a.start < b.start || (a.start == b.start && a.id <= b.id)))
}

pub open spec fn in_order(s: Seq<Annotation>) -> bool {
    forall|i: int, j: int| 0 <= i < j < s.len() ==> reads_before(#[trigger] s[i], #[trigger] s[j])
}

/// In reading order the title's highlights come first, then the
/// abstract's, then the description's, then the claims'; within a section
/// they go by position.
pub proof fn law_reading_order_follows_the_sections(s: Seq<Annotation>)
    requires
        in_order(s),
    ensures
        forall|i: int, j: int|
            #![trigger s[i], s[j]]
            0 <= i < j < s.len() ==> {
                &&& (s[j].section@ == "title"@ ==> s[i].section@ != "abstract"@ && s[i].section@ != "description"@
                    && s[i].section@ != "claims"@)
                &&& (s[j].section@ == "abstract"@ ==> s[i].section@ != "description"@ && s[i].section@
                    != "claims"@)
                &&& (s[j].section@ == "description"@ ==> s[i].section@ != "claims"@)
                &&& (s[i].section@ == s[j].section@ ==> s[i].start <= s[j].start)
            },
{
    reveal_strlit("title");
    reveal_strlit("abstract");
    reveal_strlit("description");
    reveal_strlit("claims");
    assert("title"@.len() == 5 && "abstract"@.len() == 8 && "description"@.len() == 11 && "claims"@.len() == 6);
    assert forall|i: int, j: int|
        #![trigger s[i], s[j]]
        0 <= i < j < s.len() implies {
            &&& (s[j].section@ == "title"@ ==> s[i].section@ != "abstract"@ && s[i].section@ != "description"@
                && s[i].section@ != "claims"@)
            &&& (s[j].section@ == "abstract"@ ==> s[i].section@ != "description"@ && s[i].section@ != "claims"@)
            &&& (s[j].section@ == "description"@ ==> s[i].section@ != "claims"@)
            &&& (s[i].section@ == s[j].section@ ==> s[i].start <= s[j].start)
        } by {
        assert(reads_before(s[i], s[j]));
        let a = s[i].section@;
        let b = s[j].section@;
        if a == "title"@ {
            assert(section_rank(a) == 0);
        } else if a == "abstract"@ {
            assert(section_rank(a) == 1);
        } else if a == "description"@ {
            assert(section_rank(a) == 2);
        } else if a == "claims"@ {
            assert(section_rank(a) == 3);
        }
        if b == "title"@ {
            assert(section_rank(b) == 0);
        } else if b == "abstract"@ {
            assert(section_rank(b) == 1);
        } else if b == "description"@ {
            assert(section_rank(b) == 2);
        }
        assert(b == "title"@ ==> a != "abstract"@ && a != "description"@ && a != "claims"@);
        assert(b == "abstract"@ ==> a != "description"@ && a != "claims"@);
        assert(b == "description"@ ==> a != "claims"@);
        assert(a == b ==> s[i].start <= s[j].start);
    }
}

fn rank_of(section: &str) -> (r: i8)
    ensures
        r == section_rank(section@),
{
    if str_eq(section, "title") {
        0
    } else if str_eq(section, "abstract") {
        1
    } else if str_eq(section, "description") {
        2
    } else if str_eq(section, "claims") {
        3
    } else {
        -1
    }
}

/// Whether `a` comes strictly before `b` in reading order.
fn reads_strictly_before(a: &Annotation, b: &Annotation) -> (r: bool)
    ensures
        r == !reads_before(*b, *a),
{
    let ra = rank_of(a.section.as_str());
    let rb = rank_of(b.section.as_str());
    ra < rb || (ra == rb && (a.start < b.start || (a.start == b.start && a.id < b.id)))
}

/// A document's highlights in reading order: title, abstract, description,
/// claims, then by position, then by id.
#[verifier::rlimit(40)]
pub fn reading_order(list: Vec<Annotation>) -> (r: Vec<Annotation>)
    ensures
        r@.to_multiset() == list@.to_multiset(),
        in_order(r@),
        forall|i: int, j: int|
            #![trigger r@[i], r@[j]]
            0 <= i < j < r@.len() ==> {
                &&& (r@[j].section@ == "title"@ ==> r@[i].section@ != "abstract"@ && r@[i].section@
                    != "description"@ && r@[i].section@ != "claims"@)
                &&& (r@[j].section@ == "abstract"@ ==> r@[i].section@ != "description"@ && r@[i].section@
                    != "claims"@)
                &&& (r@[j].section@ == "description"@ ==> r@[i].section@ != "claims"@)
                &&& (r@[i].section@ == r@[j].section@ ==> r@[i].start <= r@[j].start)
            },
{
    let mut rest = list;
    let mut out: Vec<Annotation> = Vec::new();
    proof {
        out@.to_multiset_ensures();
        vstd::multiset::lemma_multiset_empty_len(out@.to_multiset());
        assert(out@.to_multiset().add(rest@.to_multiset()) =~= rest@.to_multiset());
    }
    while rest.len() > 0
        invariant
            out@.to_multiset().add(rest@.to_multiset()) == list@.to_multiset(),
            in_order(out@),
        decreases rest.len(),
    {
        let ghost before_rest = rest@;
        let x = rest.pop().unwrap();
        assert(before_rest == rest@.push(x));
        let mut i: usize = 0;
        while i < out.len() && reads_strictly_before(&out[i], &x)
            invariant
                i <= out@.len(),
                forall|k: int| 0 <= k < i ==> !reads_before(x, #[trigger] out@[k]),
            decreases out.len() - i,
        {
            i += 1;
        }
        let ghost old_out = out@;
        out.insert(i, x);
        proof {
            old_out.insert_ensures(i as int, x);
            let n = out@;
            assert(n.remove(i as int) =~= old_out);
            assert(n[i as int] == x);
            n.to_multiset_ensures();
            rest@.to_multiset_ensures();
            assert(n.remove(i as int).to_multiset() == n.to_multiset().remove(n[i as int]));
            assert(n.contains(x));
            assert(n.to_multiset().count(x) > 0);
            assert(n.to_multiset() =~= old_out.to_multiset().insert(x));
            assert(before_rest.to_multiset() =~= rest@.to_multiset().insert(x));
            assert(out@.to_multiset().add(rest@.to_multiset()) =~= old_out.to_multiset().add(before_rest.to_multiset()));
            assert forall|p: int, q: int| 0 <= p < q < n.len() implies reads_before(#[trigger] n[p], #[trigger] n[q]) by {
                if q < i {
                    assert(n[p] == old_out[p] && n[q] == old_out[q]);
                } else if q == i {
                    assert(n[p] == old_out[p]);
                } else if p < i {
                    assert(n[p] == old_out[p] && n[q] == old_out[q - 1]);
                    assert(!reads_before(x, old_out[p]));
                    if i < old_out.len() {
                        assert(reads_before(old_out[i as int], old_out[q - 1]) || q - 1 == i);
                    }
                } else if p == i {
                    assert(n[q] == old_out[q - 1]);
                    assert(reads_before(x, old_out[i as int]));
                    assert(reads_before(old_out[i as int], old_out[q - 1]) || q - 1 == i);
                } else {
                    assert(n[p] == old_out[p - 1] && n[q] == old_out[q - 1]);
                }
            }
        }
    }
    proof {
        rest@.to_multiset_ensures();
        vstd::multiset::lemma_multiset_empty_len(rest@.to_multiset());
    }
    assert(out@.to_multiset().add(Multiset::empty()) =~= out@.to_multiset());
    proof {
        law_reading_order_follows_the_sections(out@);
    }
    out
}

} // verus!
