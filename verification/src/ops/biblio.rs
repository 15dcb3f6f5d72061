//! Bibliographic responses (`published-data/.../biblio,abstract` and
//! `family/.../biblio`) read into `Publication` values.
use vstd::prelude::*;
use crate::domain::selection::{lookup, LangTexts};
use crate::ops::error::OpsError;
use crate::ops::xml::{
    all_ids, all_node_ids, attr, attribute, child, child_exec, children, descendants, first_tagged, has_tag, nodes_view,
    parse_xml, select_exec, tagged, tagged_exec, text_of, text_of_exec, xml_tree,
    NodeModel, XmlNode,
};
use crate::text::{
    chars_of, digit, is_digit, join, lemma_seq_lt_order, push_str, str_eq, str_lt, string_of, strs_view, seq_lt,
};

verus! {

broadcast use vstd::string::group_string_axioms;

#[derive(Debug, Clone, PartialEq, Eq)]
pub struct Publication {
    /// `{country}.{doc_number}.{kind}`, e.g. `EP.1000000.A1`.
    pub docdb_id: String,
    pub country: String,
    pub doc_number: String,
    pub kind: String,
    pub family_id: Option<String>,
    pub application_number: Option<String>,
    /// ISO 8601 (`YYYY-MM-DD`), from the publication reference's date.
    pub publication_date: Option<String>,
    /// Titles by language, one entry per language, in the order of the codes.
    pub titles: LangTexts,
    /// Abstracts by language, one entry per language, in the order of the codes.
    pub abstracts: LangTexts,
    pub applicants: Vec<String>,
    pub ipc: Vec<String>,
    pub cpc: Vec<String>,
}

fn lookup_exec<'a>(m: &'a LangTexts, k: &str) -> (r: Option<&'a str>)
    ensures
        match r {
            Some(v) => lookup(m@, k@) == Some(v@),
            None => lookup(m@, k@) is None,
        },
{
    let mut i: usize = 0;
    while i < m.len()
        invariant
            i <= m.len(),
            forall|q: int| 0 <= q < i ==> m@[q].0@ != k@,
        decreases m.len() - i,
    {
        if str_eq(m[i].0.as_str(), k) {
            proof {
                lemma_lookup_first(m@, k@, i as int);
            }
            return Some(m[i].1.as_str());
        }
        i += 1;
    }
    proof {
        lemma_lookup_none(m@, k@);
    }
    None
}

impl Publication {
    /// The title in language `lang`.
    pub fn title(&self, lang: &str) -> (r: Option<&str>)
        ensures
            match r {
                Some(v) => lookup(self.titles@, lang@) == Some(v@),
                None => lookup(self.titles@, lang@) is None,
            },
    {
        lookup_exec(&self.titles, lang)
    }

    /// The abstract in language `lang`.
    pub fn abstract_text(&self, lang: &str) -> (r: Option<&str>)
        ensures
            match r {
                Some(v) => lookup(self.abstracts@, lang@) == Some(v@),
                None => lookup(self.abstracts@, lang@) is None,
            },
    {
        lookup_exec(&self.abstracts, lang)
    }
}

// ---------------------------------------------------------------------------
// Texts by language
// ---------------------------------------------------------------------------

/// The value last given for `k` among `(key, value)` pairs: collecting the
/// pairs into a map keeps the last value of each key.
pub open spec fn last_value(pairs: Seq<(Seq<char>, Seq<char>)>, k: Seq<char>) -> Option<Seq<char>>
    decreases pairs.len(),
{
    if pairs.len() == 0 {
        None
    } else if pairs.last().0 == k {
        Some(pairs.last().1)
    } else {
        last_value(pairs.drop_last(), k)
    }
}

pub open spec fn unique_keys(m: Seq<(String, String)>) -> bool {
    forall|i: int, j: int| 0 <= i < j < m.len() ==> m[i].0@ != m[j].0@
}

/// The keys come in the order of `str`: a map ordered by key.
pub open spec fn keys_in_order(m: Seq<(String, String)>) -> bool {
    forall|i: int, j: int| 0 <= i < j < m.len() ==> seq_lt((#[trigger] m[i]).0@, (#[trigger] m[j]).0@)
}

/// `m` holds, one entry per key and in the order of the keys, the last
/// value `pairs` gives each key.
pub open spec fn holds_pairs(m: Seq<(String, String)>, pairs: Seq<(Seq<char>, Seq<char>)>) -> bool {
    &&& unique_keys(m)
    &&& keys_in_order(m)
    &&& forall|k: Seq<char>| #[trigger] lookup(m, k) == last_value(pairs, k)
}

/// A new key put at its place in the order: the keys stay in order and
/// unique, and the key now reads the new value.
proof fn lemma_put_new_key(old_m: Seq<(String, String)>, n: Seq<(String, String)>, p: int, kv: Seq<char>, vv: Seq<char>)
    requires
        unique_keys(old_m),
        keys_in_order(old_m),
        0 <= p <= old_m.len(),
        n.len() == old_m.len() + 1,
        n[p].0@ == kv,
        n[p].1@ == vv,
        forall|q: int| 0 <= q < p ==> n[q] == old_m[q],
        forall|q: int| p < q < n.len() ==> n[q] == old_m[q - 1],
        forall|q: int| 0 <= q < p ==> seq_lt(#[trigger] old_m[q].0@, kv),
        p < old_m.len() ==> !seq_lt(old_m[p].0@, kv),
        forall|q: int| 0 <= q < old_m.len() ==> (#[trigger] old_m[q]).0@ != kv,
    ensures
        unique_keys(n),
        keys_in_order(n),
        forall|x: Seq<char>| #[trigger] lookup(n, x) == if x == kv {
            Some(vv)
        } else {
            lookup(old_m, x)
        },
{
    if p < old_m.len() {
        lemma_seq_lt_order(old_m[p].0@, kv, kv);
    }
    assert forall|i: int, j: int| 0 <= i < j < n.len() implies seq_lt((#[trigger] n[i]).0@, (#[trigger] n[j]).0@) by {
        if j < p {
        } else if j == p {
        } else if i < p {
            lemma_seq_lt_order(old_m[i].0@, kv, old_m[j - 1].0@);
            if j - 1 > p {
                lemma_seq_lt_order(kv, old_m[p].0@, old_m[j - 1].0@);
            }
        } else if i == p {
            if j - 1 > p {
                lemma_seq_lt_order(kv, old_m[p].0@, old_m[j - 1].0@);
            }
        } else {
            assert(n[i] == old_m[i - 1] && n[j] == old_m[j - 1]);
        }
    }
    assert forall|i: int, j: int| 0 <= i < j < n.len() implies n[i].0@ != n[j].0@ by {
        lemma_seq_lt_order(n[i].0@, n[j].0@, n[j].0@);
    }
    assert forall|x: Seq<char>| #[trigger] lookup(n, x) == if x == kv {
        Some(vv)
    } else {
        lookup(old_m, x)
    } by {
        if x == kv {
            assert forall|q: int| 0 <= q < p implies n[q].0@ != x by {
                assert(n[q] == old_m[q]);
            }
            lemma_lookup_first(n, x, p);
        } else if exists|q: int| 0 <= q < old_m.len() && old_m[q].0@ == x {
            let q = choose|q: int| 0 <= q < old_m.len() && old_m[q].0@ == x;
            let q2 = if q < p {
                q
            } else {
                q + 1
            };
            assert(n[q2] == old_m[q]);
            assert forall|r: int| 0 <= r < q implies old_m[r].0@ != x by {
                assert(old_m[r].0@ != old_m[q].0@);
            }
            assert forall|r: int| 0 <= r < q2 implies n[r].0@ != x by {
                if r < p {
                    assert(n[r] == old_m[r]);
                } else if r > p {
                    assert(n[r] == old_m[r - 1]);
                }
            }
            lemma_lookup_first(old_m, x, q);
            lemma_lookup_first(n, x, q2);
        } else {
            assert forall|r: int| 0 <= r < n.len() implies n[r].0@ != x by {
                if r < p {
                    assert(n[r] == old_m[r]);
                } else if r > p {
                    assert(n[r] == old_m[r - 1]);
                }
            }
            lemma_lookup_none(n, x);
            lemma_lookup_none(old_m, x);
        }
    }
}

pub proof fn lemma_lookup_first(m: Seq<(String, String)>, k: Seq<char>, i: int)
    requires
        0 <= i < m.len(),
        m[i].0@ == k,
        forall|q: int| 0 <= q < i ==> m[q].0@ != k,
    ensures
        lookup(m, k) == Some(m[i].1@),
    decreases m.len(),
{
    if i < m.len() - 1 {
        lemma_lookup_first(m.drop_last(), k, i);
    } else {
        lemma_lookup_none(m.drop_last(), k);
    }
}

pub proof fn lemma_lookup_none(m: Seq<(String, String)>, k: Seq<char>)
    requires
        forall|q: int| 0 <= q < m.len() ==> m[q].0@ != k,
    ensures
        lookup(m, k) is None,
    decreases m.len(),
{
    if m.len() > 0 {
        lemma_lookup_none(m.drop_last(), k);
    }
}

/// Sets the text for language `k`, replacing the one it had.
fn put(m: &mut LangTexts, k: String, v: String)
    requires
        unique_keys(old(m)@),
        keys_in_order(old(m)@),
    ensures
        unique_keys(final(m)@),
        keys_in_order(final(m)@),
        forall|x: Seq<char>| #[trigger] lookup(final(m)@, x) == if x == k@ {
            Some(v@)
        } else {
            lookup(old(m)@, x)
        },
{
    let ghost old_m = m@;
    let mut i: usize = 0;
    while i < m.len()
        invariant
            i <= m@.len(),
            m@ == old_m,
            old_m == old(m)@,
            unique_keys(old_m),
            keys_in_order(old_m),
            forall|q: int| 0 <= q < i ==> m@[q].0@ != k@,
        decreases m.len() - i,
    {
        if str_eq(m[i].0.as_str(), k.as_str()) {
            let ghost kv = k@;
            let ghost vv = v@;
            m.set(i, (k, v));
            proof {
                let n = m@;
                assert forall|p: int, r: int| 0 <= p < r < n.len() implies n[p].0@ != n[r].0@ by {
                    if p != i && r != i {
                        assert(n[p] == old_m[p] && n[r] == old_m[r]);
                    } else if p == i {
                        assert(n[r] == old_m[r]);
                    } else {
                        assert(n[p] == old_m[p]);
                    }
                }
                assert forall|x: Seq<char>| #[trigger] lookup(n, x) == if x == kv {
                    Some(vv)
                } else {
                    lookup(old_m, x)
                } by {
                    if x == kv {
                        lemma_lookup_first(n, x, i as int);
                    } else {
                        if exists|q: int| 0 <= q < n.len() && n[q].0@ == x {
                            let q = choose|q: int| 0 <= q < n.len() && n[q].0@ == x;
                            assert(q != i);
                            assert(old_m[q] == n[q]);
                            assert forall|p: int| 0 <= p < q implies n[p].0@ != x by {
                                assert(n[p].0@ != n[q].0@);
                            }
                            assert forall|p: int| 0 <= p < q implies old_m[p].0@ != x by {
                                assert(old_m[p].0@ != old_m[q].0@);
                            }
                            lemma_lookup_first(n, x, q);
                            lemma_lookup_first(old_m, x, q);
                        } else {
                            lemma_lookup_none(n, x);
                            assert forall|q: int| 0 <= q < old_m.len() implies old_m[q].0@ != x by {
                                if q != i {
                                    assert(n[q] == old_m[q]);
                                }
                            }
                            lemma_lookup_none(old_m, x);
                        }
                    }
                }
            }
            return;
        }
        i += 1;
    }
    let ghost kv = k@;
    let ghost vv = v@;
    let mut p: usize = 0;
    while p < m.len() && str_lt(m[p].0.as_str(), k.as_str())
        invariant
            p <= m@.len(),
            m@ == old_m,
            kv == k@,
            forall|q: int| 0 <= q < p ==> seq_lt(#[trigger] old_m[q].0@, kv),
        decreases m.len() - p,
    {
        p += 1;
    }
    m.insert(p, (k, v));
    proof {
        lemma_put_new_key(old_m, m@, p as int, kv, vv);
    }
}

/// The pairs collected, one entry per language.
fn collect_pairs(pairs: Vec<(String, String)>) -> (r: LangTexts)
    ensures
        holds_pairs(r@, pairs@.map_values(|p: (String, String)| (p.0@, p.1@))),
{
    let ghost pv = pairs@.map_values(|p: (String, String)| (p.0@, p.1@));
    let mut out: LangTexts = Vec::new();
    let mut i: usize = 0;
    let n = pairs.len();
    let mut rest = pairs;
    let ghost all = rest@;
    while i < n
        invariant
            i <= all.len(),
            n == all.len(),
            rest@ == all.skip(i as int),
            pv == all.map_values(|p: (String, String)| (p.0@, p.1@)),
            holds_pairs(out@, pv.take(i as int)),
        decreases n - i,
    {
        let ghost before = out@;
        let (k, v) = rest.remove(0);
        assert(rest@ =~= all.skip(i + 1));
        assert(pv.take(i + 1).drop_last() =~= pv.take(i as int));
        assert(pv.take(i + 1).last() == (k@, v@));
        put(&mut out, k, v);
        i += 1;
    }
    assert(pv.take(all.len() as int) =~= pv);
    out
}

// ---------------------------------------------------------------------------
// The model of a publication
// ---------------------------------------------------------------------------

/// A publication over character sequences; `titles` and `abstracts` are
/// the `(language, text)` pairs in document order.
pub struct PubModel {
    pub docdb_id: Seq<char>,
    pub country: Seq<char>,
    pub doc_number: Seq<char>,
    pub kind: Seq<char>,
    pub family_id: Option<Seq<char>>,
    pub application_number: Option<Seq<char>>,
    pub publication_date: Option<Seq<char>>,
    pub titles: Seq<(Seq<char>, Seq<char>)>,
    pub abstracts: Seq<(Seq<char>, Seq<char>)>,
    pub applicants: Seq<Seq<char>>,
    pub ipc: Seq<Seq<char>>,
    pub cpc: Seq<Seq<char>>,
}

pub open spec fn opt_view(o: Option<String>) -> Option<Seq<char>> {
    match o {
        Some(s) => Some(s@),
        None => None,
    }
}

/// Whether `p` is the publication `m` describes.
pub open spec fn pub_matches(p: Publication, m: PubModel) -> bool {
    &&& p.docdb_id@ == m.docdb_id
    &&& p.country@ == m.country
    &&& p.doc_number@ == m.doc_number
    &&& p.kind@ == m.kind
    &&& opt_view(p.family_id) == m.family_id
    &&& opt_view(p.application_number) == m.application_number
    &&& opt_view(p.publication_date) == m.publication_date
    &&& holds_pairs(p.titles@, m.titles)
    &&& holds_pairs(p.abstracts@, m.abstracts)
    &&& strs_view(p.applicants@) == m.applicants
    &&& strs_view(p.ipc@) == m.ipc
    &&& strs_view(p.cpc@) == m.cpc
}

/// The first child of `parent` that is a `document-id` of type `t`.
pub open spec fn typed_id(nodes: Seq<NodeModel>, ids: Seq<int>, t: Seq<char>) -> Option<int>
    decreases ids.len(),
{
    if ids.len() == 0 {
        None
    } else {
        match typed_id(nodes, ids.drop_last(), t) {
            Some(k) => Some(k),
            None => if has_tag(nodes[ids.last()], "document-id"@) && attr(nodes[ids.last()], "document-id-type"@)
                == Some(t) {
                Some(ids.last())
            } else {
                None
            },
        }
    }
}

pub open spec fn document_id(nodes: Seq<NodeModel>, parent: int, t: Seq<char>) -> Option<int> {
    typed_id(nodes, children(nodes, parent), t)
}

/// The text of the child `tag` of `n`, trimmed.
pub open spec fn child_text(nodes: Seq<NodeModel>, n: int, tag: Seq<char>) -> Option<Seq<char>> {
    match child(nodes, n, tag) {
        Some(c) => Some(text_of(nodes[c])),
        None => None,
    }
}

/// The application number of an `application-reference`: the epodoc
/// document id's number, else the docdb one's country and number.
pub open spec fn application_number_model(nodes: Seq<NodeModel>, app_ref: int) -> Option<Seq<char>> {
    let epodoc = match document_id(nodes, app_ref, "epodoc"@) {
        Some(n) => child_text(nodes, n, "doc-number"@),
        None => None,
    };
    match epodoc {
        Some(number) => Some(number),
        None => match document_id(nodes, app_ref, "docdb"@) {
            Some(d) => match (child_text(nodes, d, "country"@), child_text(nodes, d, "doc-number"@)) {
                (Some(c), Some(n)) => Some(c + n),
                _ => None,
            },
            None => None,
        },
    }
}

/// `20000517` as `2000-05-17`; none unless eight ASCII digits.
pub open spec fn ops_date(raw: Seq<char>) -> Option<Seq<char>> {
    if raw.len() == 8 && forall|i: int| 0 <= i < 8 ==> is_digit(#[trigger] raw[i]) {
        Some(raw.take(4) + seq!['-'] + raw.subrange(4, 6) + seq!['-'] + raw.subrange(6, 8))
    } else {
        None
    }
}

/// `{section}{class}{subclass}{main-group}/{subgroup}`, each part the
/// child's text (empty when missing).
pub open spec fn cpc_model(nodes: Seq<NodeModel>, n: int) -> Seq<char> {
    let part = |tag: Seq<char>|
        match child_text(nodes, n, tag) {
            Some(t) => t,
            None => Seq::empty(),
        };
    part("section"@) + part("class"@) + part("subclass"@) + part("main-group"@) + seq!['/'] + part("subgroup"@)
}

/// `(language, text)` of the nodes that have a `lang` attribute, the text
/// taken by `abstracts` (the paragraphs) or not (the trimmed text).
pub open spec fn lang_pairs(nodes: Seq<NodeModel>, ids: Seq<int>, paragraphs: bool) -> Seq<
    (Seq<char>, Seq<char>),
>
    decreases ids.len(),
{
    if ids.len() == 0 {
        Seq::empty()
    } else {
        let n = ids.last();
        lang_pairs(nodes, ids.drop_last(), paragraphs) + match attr(nodes[n], "lang"@) {
            Some(l) => seq![
                (l, if paragraphs {
                    paragraphs_text(nodes, n)
                } else {
                    text_of(nodes[n])
                }),
            ],
            None => Seq::empty(),
        }
    }
}

pub open spec fn texts_of(nodes: Seq<NodeModel>, ids: Seq<int>) -> Seq<Seq<char>> {
    ids.map_values(|i: int| text_of(nodes[i]))
}

/// The `p` children's texts, one per line.
pub open spec fn paragraphs_text(nodes: Seq<NodeModel>, n: int) -> Seq<char> {
    join(texts_of(nodes, tagged(nodes, children(nodes, n), "p"@)), seq!['\n'])
}

/// The names of the epodoc applicants among `ids`.
pub open spec fn applicants_model(nodes: Seq<NodeModel>, ids: Seq<int>) -> Seq<Seq<char>>
    decreases ids.len(),
{
    if ids.len() == 0 {
        Seq::empty()
    } else {
        let n = ids.last();
        applicants_model(nodes, ids.drop_last()) + if has_tag(nodes[n], "applicant"@) && attr(
            nodes[n],
            "data-format"@,
        ) == Some("epodoc"@) {
            match child(nodes, n, "applicant-name"@) {
                Some(an) => match child_text(nodes, an, "name"@) {
                    Some(t) => seq![t],
                    None => Seq::empty(),
                },
                None => Seq::empty(),
            }
        } else {
            Seq::empty()
        }
    }
}

/// The name an element gives the applicants: for an `applicant` in the
/// epodoc format, the text of its `applicant-name`'s `name`; none for any
/// other element.
pub open spec fn epodoc_applicant_name(nodes: Seq<NodeModel>, n: int) -> Option<Seq<char>> {
    if has_tag(nodes[n], "applicant"@) && attr(nodes[n], "data-format"@) == Some("epodoc"@) {
        match child(nodes, n, "applicant-name"@) {
            Some(an) => child_text(nodes, an, "name"@),
            None => None,
        }
    } else {
        None
    }
}

/// Every epodoc applicant with a name among the elements `ids` gives its
/// name to the applicants, each once and in the order of `ids` (document
/// order); no other element gives one.
pub proof fn law_every_epodoc_applicant_is_listed(nodes: Seq<NodeModel>, ids: Seq<int>)
    ensures
        applicants_model(nodes, ids) == ids.filter_map(|n: int| epodoc_applicant_name(nodes, n)),
    decreases ids.len(),
{
    if ids.len() > 0 {
        law_every_epodoc_applicant_is_listed(nodes, ids.drop_last());
        let n = ids.last();
        match epodoc_applicant_name(nodes, n) {
            Some(t) => {},
            None => {
                assert(applicants_model(nodes, ids.drop_last()) + Seq::<Seq<char>>::empty() =~= applicants_model(
                    nodes,
                    ids.drop_last(),
                ));
            },
        }
    } else {
        assert(applicants_model(nodes, ids) =~= ids.filter_map(|n: int| epodoc_applicant_name(nodes, n)));
    }
}

pub open spec fn missing(name: Seq<char>) -> Seq<char> {
    "missing @"@ + name + " on <exchange-document>"@
}

/// The publication an `exchange-document` node describes, or the message
/// of the first of its `country`, `doc-number` and `kind` attributes that
/// is missing.
pub open spec fn publication_model(nodes: Seq<NodeModel>, e: int) -> Result<PubModel, Seq<char>> {
    let n = nodes[e];
    match (attr(n, "country"@), attr(n, "doc-number"@), attr(n, "kind"@)) {
        (None, _, _) => Err(missing("country"@)),
        (Some(_), None, _) => Err(missing("doc-number"@)),
        (Some(_), Some(_), None) => Err(missing("kind"@)),
        (Some(country), Some(number), Some(kind)) => {
            let biblio = child(nodes, e, "bibliographic-data"@);
            let application_number = match biblio {
                Some(b) => match child(nodes, b, "application-reference"@) {
                    Some(a) => application_number_model(nodes, a),
                    None => None,
                },
                None => None,
            };
            let publication_date = match biblio {
                Some(b) => match child(nodes, b, "publication-reference"@) {
                    Some(pr) => match document_id(nodes, pr, "docdb"@) {
                        Some(d) => match child(nodes, d, "date"@) {
                            Some(dt) => match nodes[dt].text {
                                Some(raw) => ops_date(raw),
                                None => None,
                            },
                            None => None,
                        },
                        None => None,
                    },
                    None => None,
                },
                None => None,
            };
            let titles = match biblio {
                Some(b) => lang_pairs(nodes, tagged(nodes, children(nodes, b), "invention-title"@), false),
                None => Seq::empty(),
            };
            let abstracts = lang_pairs(nodes, tagged(nodes, children(nodes, e), "abstract"@), true);
            let applicants = match biblio {
                Some(b) => applicants_model(nodes, descendants(nodes, b)),
                None => Seq::empty(),
            };
            let ipc = match biblio {
                Some(b) => match child(nodes, b, "classification-ipc"@) {
                    Some(c) => texts_of(nodes, tagged(nodes, children(nodes, c), "text"@)),
                    None => Seq::empty(),
                },
                None => Seq::empty(),
            };
            let cpc = match biblio {
                Some(b) => match child(nodes, b, "patent-classifications"@) {
                    Some(pc) => tagged(nodes, children(nodes, pc), "patent-classification"@).map_values(
                        |i: int| cpc_model(nodes, i),
                    ),
                    None => Seq::empty(),
                },
                None => Seq::empty(),
            };
            Ok(
                PubModel {
                    docdb_id: country + seq!['.'] + number + seq!['.'] + kind,
                    country,
                    doc_number: number,
                    kind,
                    family_id: attr(n, "family-id"@),
                    application_number,
                    publication_date,
                    titles,
                    abstracts,
                    applicants,
                    ipc,
                    cpc,
                },
            )
        },
    }
}

/// The publications of the `exchange-document` nodes among `ids`, or the
/// first one's error.
pub open spec fn publications_of(nodes: Seq<NodeModel>, ids: Seq<int>) -> Result<Seq<PubModel>, Seq<char>>
    decreases ids.len(),
{
    if ids.len() == 0 {
        Ok(Seq::empty())
    } else {
        match publications_of(nodes, ids.drop_last()) {
            Err(m) => Err(m),
            Ok(ps) => match publication_model(nodes, ids.last()) {
                Err(m) => Err(m),
                Ok(p) => Ok(ps.push(p)),
            },
        }
    }
}

pub open spec fn publications_model(nodes: Seq<NodeModel>) -> Result<Seq<PubModel>, Seq<char>> {
    publications_of(nodes, tagged(nodes, all_ids(nodes.len()), "exchange-document"@))
}

/// Whether `r` is the outcome `m` describes.
pub open spec fn pubs_match(r: Result<Vec<Publication>, OpsError>, m: Result<Seq<PubModel>, Seq<char>>) -> bool {
    match (r, m) {
        (Ok(v), Ok(ps)) => v@.len() == ps.len() && forall|k: int| 0 <= k < ps.len() ==> pub_matches(#[trigger] v@[k], ps[k]),
        (Err(OpsError::Parse(msg)), Err(e)) => msg@ == e,
        _ => false,
    }
}


// ---------------------------------------------------------------------------
// Reading the nodes
// ---------------------------------------------------------------------------

fn document_id_exec(nodes: &[XmlNode], parent: usize, t: &str) -> (r: Option<usize>)
    ensures
        match r {
            Some(k) => document_id(nodes_view(nodes@), parent as int, t@) == Some(k as int) && k < nodes@.len(),
            None => document_id(nodes_view(nodes@), parent as int, t@) is None,
        },
{
    let ghost nv = nodes_view(nodes@);
    let kids = select_exec(nodes, parent, true);
    let ghost iv = kids@.map_values(|x: usize| x as int);
    let mut k: usize = 0;
    assert(iv.take(0) =~= Seq::<int>::empty());
    while k < kids.len()
        invariant
            k <= kids@.len(),
            nv == nodes_view(nodes@),
            iv == kids@.map_values(|x: usize| x as int),
            iv == children(nv, parent as int),
            forall|q: int| 0 <= q < kids@.len() ==> #[trigger] kids@[q] < nodes@.len(),
            typed_id(nv, iv.take(k as int), t@) is None,
        decreases kids.len() - k,
    {
        assert(iv.take(k + 1).drop_last() =~= iv.take(k as int));
        assert(iv.take(k + 1).last() == kids@[k as int] as int);
        let n = &nodes[kids[k]];
        assert(nv[kids@[k as int] as int] == nodes@[kids@[k as int] as int]@);
        let hit = n.element && str_eq(n.name.as_str(), "document-id") && match attribute(n, "document-id-type") {
            Some(v) => str_eq(v, t),
            None => false,
        };
        if hit {
            proof {
                lemma_typed_id_prefix(nv, iv, k + 1, t@);
            }
            return Some(kids[k]);
        }
        k += 1;
    }
    assert(iv.take(k as int) =~= iv);
    None
}

pub proof fn lemma_typed_id_prefix(nodes: Seq<NodeModel>, ids: Seq<int>, k: int, t: Seq<char>)
    requires
        0 <= k <= ids.len(),
        typed_id(nodes, ids.take(k), t) is Some,
    ensures
        typed_id(nodes, ids, t) == typed_id(nodes, ids.take(k), t),
    decreases ids.len(),
{
    if k == ids.len() {
        assert(ids.take(k) =~= ids);
    } else {
        assert(ids.drop_last().take(k) =~= ids.take(k));
        lemma_typed_id_prefix(nodes, ids.drop_last(), k, t);
    }
}

fn child_text_exec(nodes: &[XmlNode], n: usize, tag: &str) -> (r: Option<String>)
    ensures
        opt_view(r) == child_text(nodes_view(nodes@), n as int, tag@),
{
    match child_exec(nodes, n, tag) {
        Some(c) => {
            assert(nodes_view(nodes@)[c as int] == nodes@[c as int]@);
            Some(text_of_exec(&nodes[c]))
        },
        None => None,
    }
}

fn application_number_exec(nodes: &[XmlNode], app_ref: usize) -> (r: Option<String>)
    ensures
        opt_view(r) == application_number_model(nodes_view(nodes@), app_ref as int),
{
    if let Some(n) = document_id_exec(nodes, app_ref, "epodoc") {
        if let Some(number) = child_text_exec(nodes, n, "doc-number") {
            return Some(number);
        }
    }
    let d = match document_id_exec(nodes, app_ref, "docdb") {
        Some(d) => d,
        None => {
            return None;
        },
    };
    let country = match child_text_exec(nodes, d, "country") {
        Some(c) => c,
        None => {
            return None;
        },
    };
    let number = match child_text_exec(nodes, d, "doc-number") {
        Some(x) => x,
        None => {
            return None;
        },
    };
    let mut out = country;
    push_str(&mut out, number.as_str());
    Some(out)
}

/// `20000517` as `2000-05-17`; none unless eight ASCII digits.
pub fn format_ops_date(raw: &str) -> (r: Option<String>)
    ensures
        opt_view(r) == ops_date(raw@),
{
    let v = chars_of(raw);
    if v.len() != 8 {
        return None;
    }
    let mut i: usize = 0;
    while i < 8
        invariant
            i <= 8,
            v@.len() == 8,
            v@ == raw@,
            forall|q: int| 0 <= q < i ==> is_digit(#[trigger] v@[q]),
        decreases 8 - i,
    {
        if !digit(v[i]) {
            assert(!is_digit(raw@[i as int]));
            return None;
        }
        i += 1;
    }
    let mut out: Vec<char> = crate::text::slice_vec(v.as_slice(), 0, 4);
    out.push('-');
    crate::text::extend_from(&mut out, v.as_slice(), 4, 6);
    out.push('-');
    crate::text::extend_from(&mut out, v.as_slice(), 6, 8);
    assert(out@ =~= v@.take(4) + seq!['-'] + v@.subrange(4, 6) + seq!['-'] + v@.subrange(6, 8));
    Some(string_of(out.as_slice()))
}

fn part_or_empty(nodes: &[XmlNode], n: usize, tag: &str) -> (r: String)
    ensures
        r@ == match child_text(nodes_view(nodes@), n as int, tag@) {
            Some(t) => t,
            None => Seq::empty(),
        },
{
    match child_text_exec(nodes, n, tag) {
        Some(t) => t,
        None => String::new(),
    }
}

fn cpc_exec(nodes: &[XmlNode], n: usize) -> (r: String)
    ensures
        r@ == cpc_model(nodes_view(nodes@), n as int),
{
    let mut out = part_or_empty(nodes, n, "section");
    push_str(&mut out, part_or_empty(nodes, n, "class").as_str());
    push_str(&mut out, part_or_empty(nodes, n, "subclass").as_str());
    push_str(&mut out, part_or_empty(nodes, n, "main-group").as_str());
    push_str(&mut out, "/");
    proof {
        reveal_strlit("/");
    }
    push_str(&mut out, part_or_empty(nodes, n, "subgroup").as_str());
    out
}

fn texts_exec(nodes: &[XmlNode], ids: &[usize]) -> (r: Vec<String>)
    requires
        forall|k: int| 0 <= k < ids@.len() ==> #[trigger] ids@[k] < nodes@.len(),
    ensures
        strs_view(r@) == texts_of(nodes_view(nodes@), ids@.map_values(|x: usize| x as int)),
{
    let ghost nv = nodes_view(nodes@);
    let ghost iv = ids@.map_values(|x: usize| x as int);
    let mut out: Vec<String> = Vec::new();
    let mut k: usize = 0;
    assert(iv.take(0) =~= Seq::<int>::empty());
    assert(strs_view(out@) =~= texts_of(nv, iv.take(0)));
    while k < ids.len()
        invariant
            k <= ids@.len(),
            nv == nodes_view(nodes@),
            iv == ids@.map_values(|x: usize| x as int),
            forall|q: int| 0 <= q < ids@.len() ==> #[trigger] ids@[q] < nodes@.len(),
            strs_view(out@) == texts_of(nv, iv.take(k as int)),
        decreases ids.len() - k,
    {
        assert(nv[ids@[k as int] as int] == nodes@[ids@[k as int] as int]@);
        let ghost before = out@;
        let t = text_of_exec(&nodes[ids[k]]);
        out.push(t);
        assert(strs_view(out@) =~= texts_of(nv, iv.take(k + 1))) by {
            let a = strs_view(before);
            let b = texts_of(nv, iv.take(k as int));
            assert(a == b);
            assert(a.len() == before.len());
            assert(b.len() == k);
            assert(out@ == before.push(t));
            assert forall|q: int| 0 <= q < k + 1 implies #[trigger] strs_view(out@)[q] == texts_of(nv, iv.take(k + 1))[q] by {
                if q < k {
                    assert(out@[q] == before[q]);
                    assert(a[q] == b[q]);
                    assert(iv.take(k + 1)[q] == iv.take(k as int)[q]);
                } else {
                    assert(iv.take(k + 1)[q] == ids@[k as int] as int);
                }
            }
        }
        k += 1;
    }
    assert(iv.take(k as int) =~= iv);
    out
}

fn paragraphs_exec(nodes: &[XmlNode], n: usize) -> (r: String)
    ensures
        r@ == paragraphs_text(nodes_view(nodes@), n as int),
{
    let kids = select_exec(nodes, n, true);
    let ps = tagged_exec(nodes, kids.as_slice(), "p");
    let texts = texts_exec(nodes, ps.as_slice());
    proof {
        reveal_strlit("\n");
        assert("\n"@ =~= seq!['\n']);
    }
    let r = crate::text::join_strings(texts.as_slice(), "\n");
    assert(strs_view(texts@) == texts_of(nodes_view(nodes@), tagged(nodes_view(nodes@), children(nodes_view(nodes@), n as int), "p"@)));
    r
}

fn lang_pairs_exec(nodes: &[XmlNode], ids: &[usize], paragraphs: bool) -> (r: Vec<(String, String)>)
    requires
        forall|k: int| 0 <= k < ids@.len() ==> #[trigger] ids@[k] < nodes@.len(),
    ensures
        r@.map_values(|p: (String, String)| (p.0@, p.1@)) == lang_pairs(
            nodes_view(nodes@),
            ids@.map_values(|x: usize| x as int),
            paragraphs,
        ),
{
    let ghost nv = nodes_view(nodes@);
    let ghost iv = ids@.map_values(|x: usize| x as int);
    let mut out: Vec<(String, String)> = Vec::new();
    let mut k: usize = 0;
    assert(iv.take(0) =~= Seq::<int>::empty());
    while k < ids.len()
        invariant
            k <= ids@.len(),
            nv == nodes_view(nodes@),
            iv == ids@.map_values(|x: usize| x as int),
            forall|q: int| 0 <= q < ids@.len() ==> #[trigger] ids@[q] < nodes@.len(),
            out@.map_values(|p: (String, String)| (p.0@, p.1@)) == lang_pairs(nv, iv.take(k as int), paragraphs),
        decreases ids.len() - k,
    {
        assert(iv.take(k + 1).drop_last() =~= iv.take(k as int));
        assert(iv.take(k + 1).last() == ids@[k as int] as int);
        let id = ids[k];
        assert(nv[id as int] == nodes@[id as int]@);
        let ghost before = out@;
        match attribute(&nodes[id], "lang") {
            Some(l) => {
                let text = if paragraphs {
                    paragraphs_exec(nodes, id)
                } else {
                    text_of_exec(&nodes[id])
                };
                out.push((l.to_owned(), text));
            },
            None => {},
        }
        assert(out@.map_values(|p: (String, String)| (p.0@, p.1@)) =~= lang_pairs(nv, iv.take(k + 1), paragraphs))
            by {
            assert(before.map_values(|p: (String, String)| (p.0@, p.1@)) == lang_pairs(nv, iv.take(k as int), paragraphs));
        }
        k += 1;
    }
    assert(iv.take(k as int) =~= iv);
    out
}

fn applicants_exec(nodes: &[XmlNode], ids: &[usize]) -> (r: Vec<String>)
    requires
        forall|k: int| 0 <= k < ids@.len() ==> #[trigger] ids@[k] < nodes@.len(),
    ensures
        strs_view(r@) == applicants_model(nodes_view(nodes@), ids@.map_values(|x: usize| x as int)),
{
    let ghost nv = nodes_view(nodes@);
    let ghost iv = ids@.map_values(|x: usize| x as int);
    let mut out: Vec<String> = Vec::new();
    let mut k: usize = 0;
    assert(iv.take(0) =~= Seq::<int>::empty());
    while k < ids.len()
        invariant
            k <= ids@.len(),
            nv == nodes_view(nodes@),
            iv == ids@.map_values(|x: usize| x as int),
            forall|q: int| 0 <= q < ids@.len() ==> #[trigger] ids@[q] < nodes@.len(),
            strs_view(out@) == applicants_model(nv, iv.take(k as int)),
        decreases ids.len() - k,
    {
        assert(iv.take(k + 1).drop_last() =~= iv.take(k as int));
        assert(iv.take(k + 1).last() == ids@[k as int] as int);
        let id = ids[k];
        let n = &nodes[id];
        assert(nv[id as int] == nodes@[id as int]@);
        let ghost before = out@;
        let epodoc = match attribute(n, "data-format") {
            Some(v) => str_eq(v, "epodoc"),
            None => false,
        };
        if n.element && str_eq(n.name.as_str(), "applicant") && epodoc {
            if let Some(an) = child_exec(nodes, id, "applicant-name") {
                if let Some(t) = child_text_exec(nodes, an, "name") {
                    out.push(t);
                }
            }
        }
        assert(strs_view(out@) =~= applicants_model(nv, iv.take(k + 1))) by {
            assert(strs_view(before) == applicants_model(nv, iv.take(k as int)));
        }
        k += 1;
    }
    assert(iv.take(k as int) =~= iv);
    out
}

fn missing_attr(name: &str) -> (r: OpsError)
    ensures
        r matches OpsError::Parse(m) && m@ == missing(name@),
{
    let mut m = "missing @".to_owned();
    push_str(&mut m, name);
    push_str(&mut m, " on <exchange-document>");
    OpsError::Parse(m)
}

fn optional_child(nodes: &[XmlNode], parent: Option<usize>, tag: &str) -> (r: Option<usize>)
    ensures
        match r {
            Some(k) => parent is Some && child(nodes_view(nodes@), parent->0 as int, tag@) == Some(k as int) && k
                < nodes@.len(),
            None => parent is None || child(nodes_view(nodes@), parent->0 as int, tag@) is None,
        },
{
    match parent {
        Some(p) => child_exec(nodes, p, tag),
        None => None,
    }
}

/// The publication that the `exchange-document` node `e` describes.
#[verifier::rlimit(60)]
fn publication_exec(nodes: &[XmlNode], e: usize) -> (r: Result<Publication, OpsError>)
    requires
        e < nodes@.len(),
    ensures
        match (r, publication_model(nodes_view(nodes@), e as int)) {
            (Ok(p), Ok(m)) => pub_matches(p, m),
            (Err(OpsError::Parse(msg)), Err(m)) => msg@ == m,
            _ => false,
        },
{
    let ghost nv = nodes_view(nodes@);
    let node = &nodes[e];
    assert(nv[e as int] == nodes@[e as int]@);
    let country = match attribute(node, "country") {
        Some(c) => c,
        None => {
            return Err(missing_attr("country"));
        },
    };
    let number = match attribute(node, "doc-number") {
        Some(c) => c,
        None => {
            return Err(missing_attr("doc-number"));
        },
    };
    let kind = match attribute(node, "kind") {
        Some(c) => c,
        None => {
            return Err(missing_attr("kind"));
        },
    };
    let family_id = match attribute(node, "family-id") {
        Some(f) => Some(f.to_owned()),
        None => None,
    };
    let mut docdb_id = country.to_owned();
    push_str(&mut docdb_id, ".");
    push_str(&mut docdb_id, number);
    push_str(&mut docdb_id, ".");
    push_str(&mut docdb_id, kind);
    proof {
        reveal_strlit(".");
    }
    let biblio = child_exec(nodes, e, "bibliographic-data");
    let application_number = match optional_child(nodes, biblio, "application-reference") {
        Some(a) => application_number_exec(nodes, a),
        None => None,
    };
    let publication_date = match optional_child(nodes, biblio, "publication-reference") {
        Some(pr) => match document_id_exec(nodes, pr, "docdb") {
            Some(d) => match child_exec(nodes, d, "date") {
                Some(dt) => {
                    assert(nv[dt as int] == nodes@[dt as int]@);
                    match &nodes[dt].text {
                        Some(raw) => format_ops_date(raw.as_str()),
                        None => None,
                    }
                },
                None => None,
            },
            None => None,
        },
        None => None,
    };
    let title_pairs = match biblio {
        Some(b) => {
            let kids = select_exec(nodes, b, true);
            let ts = tagged_exec(nodes, kids.as_slice(), "invention-title");
            lang_pairs_exec(nodes, ts.as_slice(), false)
        },
        None => Vec::new(),
    };
    let titles = collect_pairs(title_pairs);
    let abstract_pairs = {
        let kids = select_exec(nodes, e, true);
        let abs = tagged_exec(nodes, kids.as_slice(), "abstract");
        lang_pairs_exec(nodes, abs.as_slice(), true)
    };
    let abstracts = collect_pairs(abstract_pairs);
    let applicants = match biblio {
        Some(b) => {
            let below = select_exec(nodes, b, false);
            applicants_exec(nodes, below.as_slice())
        },
        None => Vec::new(),
    };
    let ipc = match optional_child(nodes, biblio, "classification-ipc") {
        Some(c) => {
            let kids = select_exec(nodes, c, true);
            let texts = tagged_exec(nodes, kids.as_slice(), "text");
            texts_exec(nodes, texts.as_slice())
        },
        None => Vec::new(),
    };
    let cpc = match optional_child(nodes, biblio, "patent-classifications") {
        Some(pc) => {
            let kids = select_exec(nodes, pc, true);
            let items = tagged_exec(nodes, kids.as_slice(), "patent-classification");
            let ghost iv = items@.map_values(|x: usize| x as int);
            let mut out: Vec<String> = Vec::new();
            let mut k: usize = 0;
            assert(strs_view(out@) =~= iv.take(0).map_values(|i: int| cpc_model(nv, i)));
            while k < items.len()
                invariant
                    k <= items@.len(),
                    nv == nodes_view(nodes@),
                    iv == items@.map_values(|x: usize| x as int),
                    strs_view(out@) == iv.take(k as int).map_values(|i: int| cpc_model(nv, i)),
                decreases items.len() - k,
            {
                let ghost before = out@;
                let c = cpc_exec(nodes, items[k]);
                out.push(c);
                assert(strs_view(out@) =~= iv.take(k + 1).map_values(|i: int| cpc_model(nv, i))) by {
                    let a = strs_view(before);
                    let b = iv.take(k as int).map_values(|i: int| cpc_model(nv, i));
                    let b1 = iv.take(k + 1).map_values(|i: int| cpc_model(nv, i));
                    assert(a == b);
                    assert(a.len() == before.len());
                    assert(b.len() == k);
                    assert(out@ == before.push(c));
                    assert forall|q: int| 0 <= q < k + 1 implies #[trigger] strs_view(out@)[q] == b1[q] by {
                        if q < k {
                            assert(out@[q] == before[q]);
                            assert(a[q] == b[q]);
                            assert(iv.take(k + 1)[q] == iv.take(k as int)[q]);
                        } else {
                            assert(iv.take(k + 1)[q] == items@[k as int] as int);
                        }
                    }
                }
                k += 1;
            }
            assert(iv.take(k as int) =~= iv);
            out
        },
        None => Vec::new(),
    };
    let p = Publication {
        docdb_id,
        country: country.to_owned(),
        doc_number: number.to_owned(),
        kind: kind.to_owned(),
        family_id,
        application_number,
        publication_date,
        titles,
        abstracts,
        applicants,
        ipc,
        cpc,
    };
    proof {
        let m = publication_model(nv, e as int);
        assert(m is Ok);
        assert(strs_view(p.applicants@) == m->Ok_0.applicants);
        assert(strs_view(p.ipc@) == m->Ok_0.ipc);
        assert(strs_view(p.cpc@) == m->Ok_0.cpc);
        assert(opt_view(p.publication_date) == m->Ok_0.publication_date);
        assert(opt_view(p.application_number) == m->Ok_0.application_number);
        assert(holds_pairs(p.titles@, m->Ok_0.titles));
        assert(holds_pairs(p.abstracts@, m->Ok_0.abstracts));
        assert(p.docdb_id@ == m->Ok_0.docdb_id);
        assert(p.country@ == m->Ok_0.country);
        assert(p.kind@ == m->Ok_0.kind);
        assert(opt_view(p.family_id) == m->Ok_0.family_id);
        assert(pub_matches(p, m->Ok_0));
    }
    Ok(p)
}

/// The publications of every `exchange-document` of a parsed response, or
/// the error of the first that lacks its number.
pub fn publications(nodes: &[XmlNode]) -> (r: Result<Vec<Publication>, OpsError>)
    ensures
        pubs_match(r, publications_model(nodes_view(nodes@))),
{
    let ghost nv = nodes_view(nodes@);
    let all = all_node_ids(nodes);
    let docs = tagged_exec(nodes, all.as_slice(), "exchange-document");
    let ghost dv = docs@.map_values(|x: usize| x as int);
    assert(dv == tagged(nv, all_ids(nodes@.len() as nat), "exchange-document"@));
    let mut out: Vec<Publication> = Vec::new();
    let mut k: usize = 0;
    assert(dv.take(0) =~= Seq::<int>::empty());
    while k < docs.len()
        invariant
            k <= docs@.len(),
            nv == nodes_view(nodes@),
            dv == docs@.map_values(|x: usize| x as int),
            dv == tagged(nv, all_ids(nodes@.len() as nat), "exchange-document"@),
            forall|q: int| 0 <= q < docs@.len() ==> #[trigger] docs@[q] < nodes@.len(),
            publications_of(nv, dv.take(k as int)) matches Ok(ps) && out@.len() == ps.len() && forall|q: int|
                0 <= q < ps.len() ==> pub_matches(#[trigger] out@[q], ps[q]),
        decreases docs.len() - k,
    {
        assert(dv.take(k + 1).drop_last() =~= dv.take(k as int));
        assert(dv.take(k + 1).last() == docs@[k as int] as int);
        match publication_exec(nodes, docs[k]) {
            Ok(p) => {
                let ghost before = out@;
                out.push(p);
                proof {
                    let ps = publications_of(nv, dv.take(k as int))->Ok_0;
                    let ps1 = publications_of(nv, dv.take(k + 1))->Ok_0;
                    assert forall|q: int| 0 <= q < ps1.len() implies pub_matches(#[trigger] out@[q], ps1[q]) by {
                        if q < ps.len() {
                            assert(out@[q] == before[q]);
                        }
                    }
                }
            },
            Err(e) => {
                proof {
                    assert(publication_model(nv, docs@[k as int] as int) is Err);
                    assert(publications_of(nv, dv.take(k + 1)) == Err::<Seq<PubModel>, Seq<char>>(
                        publication_model(nv, docs@[k as int] as int)->Err_0,
                    ));
                    lemma_publications_error(nv, dv, k + 1);
                }
                return Err(e);
            },
        }
        k += 1;
    }
    assert(dv.take(k as int) =~= dv);
    Ok(out)
}

proof fn lemma_publications_error(nodes: Seq<NodeModel>, ids: Seq<int>, k: int)
    requires
        0 <= k <= ids.len(),
        publications_of(nodes, ids.take(k)) is Err,
    ensures
        publications_of(nodes, ids) == publications_of(nodes, ids.take(k)),
    decreases ids.len(),
{
    if k == ids.len() {
        assert(ids.take(k) =~= ids);
    } else {
        assert(ids.drop_last().take(k) =~= ids.take(k));
        lemma_publications_error(nodes, ids.drop_last(), k);
    }
}

/// `invalid XML: ...` for a response that is not XML.
pub(crate) fn invalid_xml(message: String) -> (r: OpsError)
    ensures
        r matches OpsError::Parse(e) && e@ == "invalid XML: "@ + message@,
{
    let mut m = "invalid XML: ".to_owned();
    push_str(&mut m, message.as_str());
    OpsError::Parse(m)
}

/// Reads every `exchange-document` of a bibliographic response: one for a
/// single publication, one per member for a family.
pub fn parse(xml: &str) -> (r: Result<Vec<Publication>, OpsError>)
    ensures
        match xml_tree(xml@) {
            Err(m) => r matches Err(OpsError::Parse(e)) && e@ == "invalid XML: "@ + m,
            Ok(nodes) => pubs_match(r, publications_model(nodes)),
        },
{
    match parse_xml(xml) {
        Ok(nodes) => publications(nodes.as_slice()),
        Err(e) => Err(invalid_xml(e)),
    }
}

} // verus!
