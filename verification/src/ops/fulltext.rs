//! Full-text inquiry, description and claims responses read as plain text:
//! one paragraph or claim per line, whitespace normalised, and tables,
//! formulae and chemical structures replaced with a placeholder.
use vstd::prelude::*;
use crate::ops::biblio::invalid_xml;
use crate::ops::error::OpsError;
use crate::ops::xml::{
    all_ids, all_node_ids, attr, attribute, descendants, has_tag, nodes_view, parse_xml, select_exec,
    tagged, tagged_exec, children, xml_tree, NodeModel, XmlNode,
};
use crate::text::{
    chars_of, decimal, eq_ignore_ascii_case, eq_ignore_case, join, join_strings, normalise_range,
    normalise_ws, push_str, str_eq, string_of, strs_view,
};

verus! {

broadcast use vstd::string::group_string_axioms;

#[derive(Debug, Clone, Copy, PartialEq, Eq)]
pub enum FulltextPart {
    Description,
    Claims,
}

#[derive(Debug, Clone, PartialEq, Eq)]
pub struct FulltextInstance {
    pub lang: String,
    pub part: FulltextPart,
}

/// The instances among `ids` with a language and a known part.
pub open spec fn instances_of(nodes: Seq<NodeModel>, ids: Seq<int>) -> Seq<(Seq<char>, FulltextPart)>
    decreases ids.len(),
{
    if ids.len() == 0 {
        Seq::empty()
    } else {
        let n = nodes[ids.last()];
        instances_of(nodes, ids.drop_last()) + match (attr(n, "lang"@), attr(n, "desc"@)) {
            (Some(l), Some(d)) => if d == "description"@ {
                seq![(l, FulltextPart::Description)]
            } else if d == "claims"@ {
                seq![(l, FulltextPart::Claims)]
            } else {
                Seq::empty()
            },
            _ => Seq::empty(),
        }
    }
}

pub open spec fn inquiry_model(nodes: Seq<NodeModel>) -> Seq<(Seq<char>, FulltextPart)> {
    instances_of(nodes, tagged(nodes, all_ids(nodes.len()), "fulltext-instance"@))
}

pub open spec fn instances_view(v: Seq<FulltextInstance>) -> Seq<(Seq<char>, FulltextPart)> {
    v.map_values(|i: FulltextInstance| (i.lang@, i.part))
}

/// The parts listed in a parsed inquiry response.
pub fn instances(nodes: &[XmlNode]) -> (r: Vec<FulltextInstance>)
    ensures
        instances_view(r@) == inquiry_model(nodes_view(nodes@)),
{
    let ghost nv = nodes_view(nodes@);
    let all = all_node_ids(nodes);
    let ids = tagged_exec(nodes, all.as_slice(), "fulltext-instance");
    let ghost iv = ids@.map_values(|x: usize| x as int);
    let mut out: Vec<FulltextInstance> = Vec::new();
    let mut k: usize = 0;
    assert(iv.take(0) =~= Seq::<int>::empty());
    while k < ids.len()
        invariant
            k <= ids@.len(),
            nv == nodes_view(nodes@),
            iv == ids@.map_values(|x: usize| x as int),
            iv == tagged(nv, all_ids(nodes@.len() as nat), "fulltext-instance"@),
            forall|q: int| 0 <= q < ids@.len() ==> #[trigger] ids@[q] < nodes@.len(),
            instances_view(out@) == instances_of(nv, iv.take(k as int)),
        decreases ids.len() - k,
    {
        assert(iv.take(k + 1).drop_last() =~= iv.take(k as int));
        assert(iv.take(k + 1).last() == ids@[k as int] as int);
        let n = &nodes[ids[k]];
        assert(nv[ids@[k as int] as int] == nodes@[ids@[k as int] as int]@);
        let ghost before = out@;
        match (attribute(n, "lang"), attribute(n, "desc")) {
            (Some(l), Some(d)) => {
                if str_eq(d, "description") {
                    out.push(FulltextInstance { lang: l.to_owned(), part: FulltextPart::Description });
                } else if str_eq(d, "claims") {
                    out.push(FulltextInstance { lang: l.to_owned(), part: FulltextPart::Claims });
                }
            },
            _ => {},
        }
        assert(instances_view(out@) =~= instances_of(nv, iv.take(k + 1))) by {
            assert(instances_view(before) == instances_of(nv, iv.take(k as int)));
        }
        k += 1;
    }
    assert(iv.take(k as int) =~= iv);
    out
}

/// Which parts exist for a publication, and in which languages.
pub fn parse_inquiry(xml: &str) -> (r: Result<Vec<FulltextInstance>, OpsError>)
    ensures
        match xml_tree(xml@) {
            Err(m) => r matches Err(OpsError::Parse(e)) && e@ == "invalid XML: "@ + m,
            Ok(nodes) => r matches Ok(v) && instances_view(v@) == inquiry_model(nodes),
        },
{
    match parse_xml(xml) {
        Ok(nodes) => Ok(instances(nodes.as_slice())),
        Err(e) => Err(invalid_xml(e)),
    }
}

// ---------------------------------------------------------------------------
// Plain text
// ---------------------------------------------------------------------------

/// What a table, formula or chemical structure element is called in its
/// placeholder.
pub open spec fn non_text_kind(n: NodeModel) -> Option<Seq<char>> {
    if !n.element {
        None
    } else if n.name == "tables"@ {
        Some("Table"@)
    } else if n.name == "maths"@ {
        Some("Formula"@)
    } else if n.name == "chemistry"@ {
        Some("Chemical structure"@)
    } else {
        None
    }
}

/// The kind of the first non-text element among `ids`.
pub open spec fn first_kind(nodes: Seq<NodeModel>, ids: Seq<int>) -> Option<Seq<char>>
    decreases ids.len(),
{
    if ids.len() == 0 {
        None
    } else {
        match first_kind(nodes, ids.drop_last()) {
            Some(k) => Some(k),
            None => non_text_kind(nodes[ids.last()]),
        }
    }
}

/// The texts of the text nodes among `ids`, one after the other (an
/// element's own text is that of its first child, so it is not taken
/// twice).
pub open spec fn text_content(nodes: Seq<NodeModel>, ids: Seq<int>) -> Seq<char>
    decreases ids.len(),
{
    if ids.len() == 0 {
        Seq::empty()
    } else {
        let n = nodes[ids.last()];
        text_content(nodes, ids.drop_last()) + match n.text {
            Some(t) => if n.element {
                Seq::empty()
            } else {
                t
            },
            None => Seq::empty(),
        }
    }
}

/// Paragraph `number` of a description: a placeholder when it holds a
/// table, formula or chemical structure, its whitespace-normalised text
/// otherwise.
pub open spec fn paragraph_model(nodes: Seq<NodeModel>, p: int, number: nat) -> Seq<char> {
    let below = descendants(nodes, p);
    match first_kind(nodes, below) {
        Some(kind) => "["@ + kind + " "@ + decimal(number) + " not reproduced]"@,
        None => normalise_ws(text_content(nodes, below)),
    }
}

/// A claim's text, or a placeholder without a number.
pub open spec fn claim_text_model(nodes: Seq<NodeModel>, n: int) -> Seq<char> {
    let below = descendants(nodes, n);
    match first_kind(nodes, below) {
        Some(kind) => "["@ + kind + " not reproduced]"@,
        None => normalise_ws(text_content(nodes, below)),
    }
}

/// The paragraphs, numbered from 1.
pub open spec fn numbered_paragraphs(nodes: Seq<NodeModel>, ps: Seq<int>) -> Seq<Seq<char>>
    decreases ps.len(),
{
    if ps.len() == 0 {
        Seq::empty()
    } else {
        numbered_paragraphs(nodes, ps.drop_last()).push(paragraph_model(nodes, ps.last(), ps.len()))
    }
}

/// The first of `ids` with the tag and a `lang` attribute equal to `lang`
/// in any ASCII case.
pub open spec fn section_of(nodes: Seq<NodeModel>, ids: Seq<int>, tag: Seq<char>, lang: Seq<char>) -> Option<int>
    decreases ids.len(),
{
    if ids.len() == 0 {
        None
    } else {
        match section_of(nodes, ids.drop_last(), tag, lang) {
            Some(k) => Some(k),
            None => {
                let n = nodes[ids.last()];
                if has_tag(n, tag) && (attr(n, "lang"@) matches Some(l) && eq_ignore_ascii_case(l, lang)) {
                    Some(ids.last())
                } else {
                    None
                }
            },
        }
    }
}

/// The description in `lang`: its language as given, and its paragraphs,
/// one per line.
pub open spec fn description_model(nodes: Seq<NodeModel>, lang: Seq<char>) -> Option<(Seq<char>, Seq<char>)> {
    match section_of(nodes, all_ids(nodes.len()), "description"@, lang) {
        None => None,
        Some(d) => Some(
            (
                attr(nodes[d], "lang"@)->0,
                join(numbered_paragraphs(nodes, tagged(nodes, children(nodes, d), "p"@)), seq!['\n']),
            ),
        ),
    }
}

/// The claims in `lang`: their language as given, and every `claim-text`
/// below them, one per line.
pub open spec fn claims_model(nodes: Seq<NodeModel>, lang: Seq<char>) -> Option<(Seq<char>, Seq<char>)> {
    match section_of(nodes, all_ids(nodes.len()), "claims"@, lang) {
        None => None,
        Some(c) => Some(
            (
                attr(nodes[c], "lang"@)->0,
                join(
                    tagged(nodes, descendants(nodes, c), "claim-text"@).map_values(|i: int| claim_text_model(nodes, i)),
                    seq!['\n'],
                ),
            ),
        ),
    }
}

pub open spec fn pair_view(o: Option<(String, String)>) -> Option<(Seq<char>, Seq<char>)> {
    match o {
        Some((a, b)) => Some((a@, b@)),
        None => None,
    }
}

fn section_exec(nodes: &[XmlNode], ids: &[usize], tag: &str, lang: &str) -> (r: Option<usize>)
    requires
        forall|k: int| 0 <= k < ids@.len() ==> #[trigger] ids@[k] < nodes@.len(),
    ensures
        match r {
            Some(k) => section_of(nodes_view(nodes@), ids@.map_values(|x: usize| x as int), tag@, lang@) == Some(
                k as int,
            ) && k < nodes@.len(),
            None => section_of(nodes_view(nodes@), ids@.map_values(|x: usize| x as int), tag@, lang@) is None,
        },
{
    let ghost nv = nodes_view(nodes@);
    let ghost iv = ids@.map_values(|x: usize| x as int);
    let lang_chars = chars_of(lang);
    let mut k: usize = 0;
    assert(iv.take(0) =~= Seq::<int>::empty());
    while k < ids.len()
        invariant
            k <= ids@.len(),
            nv == nodes_view(nodes@),
            iv == ids@.map_values(|x: usize| x as int),
            lang_chars@ == lang@,
            forall|q: int| 0 <= q < ids@.len() ==> #[trigger] ids@[q] < nodes@.len(),
            section_of(nv, iv.take(k as int), tag@, lang@) is None,
        decreases ids.len() - k,
    {
        assert(iv.take(k + 1).drop_last() =~= iv.take(k as int));
        assert(iv.take(k + 1).last() == ids@[k as int] as int);
        let n = &nodes[ids[k]];
        assert(nv[ids@[k as int] as int] == nodes@[ids@[k as int] as int]@);
        let same = match attribute(n, "lang") {
            Some(l) => eq_ignore_case(chars_of(l).as_slice(), lang_chars.as_slice()),
            None => false,
        };
        if n.element && str_eq(n.name.as_str(), tag) && same {
            proof {
                lemma_section_prefix(nv, iv, k + 1, tag@, lang@);
            }
            return Some(ids[k]);
        }
        k += 1;
    }
    assert(iv.take(k as int) =~= iv);
    None
}

pub proof fn lemma_section_found(nodes: Seq<NodeModel>, ids: Seq<int>, tag: Seq<char>, lang: Seq<char>)
    ensures
        section_of(nodes, ids, tag, lang) matches Some(k) ==> attr(nodes[k], "lang"@) is Some,
    decreases ids.len(),
{
    if ids.len() > 0 {
        lemma_section_found(nodes, ids.drop_last(), tag, lang);
    }
}

pub proof fn lemma_section_prefix(nodes: Seq<NodeModel>, ids: Seq<int>, k: int, tag: Seq<char>, lang: Seq<char>)
    requires
        0 <= k <= ids.len(),
        section_of(nodes, ids.take(k), tag, lang) is Some,
    ensures
        section_of(nodes, ids, tag, lang) == section_of(nodes, ids.take(k), tag, lang),
    decreases ids.len(),
{
    if k == ids.len() {
        assert(ids.take(k) =~= ids);
    } else {
        assert(ids.drop_last().take(k) =~= ids.take(k));
        lemma_section_prefix(nodes, ids.drop_last(), k, tag, lang);
    }
}

fn non_text_kind_exec(n: &XmlNode) -> (r: Option<&'static str>)
    ensures
        match r {
            Some(k) => non_text_kind(n@) == Some(k@),
            None => non_text_kind(n@) is None,
        },
{
    if !n.element {
        None
    } else if str_eq(n.name.as_str(), "tables") {
        Some("Table")
    } else if str_eq(n.name.as_str(), "maths") {
        Some("Formula")
    } else if str_eq(n.name.as_str(), "chemistry") {
        Some("Chemical structure")
    } else {
        None
    }
}

fn first_kind_exec(nodes: &[XmlNode], ids: &[usize]) -> (r: Option<&'static str>)
    requires
        forall|k: int| 0 <= k < ids@.len() ==> #[trigger] ids@[k] < nodes@.len(),
    ensures
        match r {
            Some(k) => first_kind(nodes_view(nodes@), ids@.map_values(|x: usize| x as int)) == Some(k@),
            None => first_kind(nodes_view(nodes@), ids@.map_values(|x: usize| x as int)) is None,
        },
{
    let ghost nv = nodes_view(nodes@);
    let ghost iv = ids@.map_values(|x: usize| x as int);
    let mut k: usize = 0;
    assert(iv.take(0) =~= Seq::<int>::empty());
    while k < ids.len()
        invariant
            k <= ids@.len(),
            nv == nodes_view(nodes@),
            iv == ids@.map_values(|x: usize| x as int),
            forall|q: int| 0 <= q < ids@.len() ==> #[trigger] ids@[q] < nodes@.len(),
            first_kind(nv, iv.take(k as int)) is None,
        decreases ids.len() - k,
    {
        assert(iv.take(k + 1).drop_last() =~= iv.take(k as int));
        assert(iv.take(k + 1).last() == ids@[k as int] as int);
        assert(nv[ids@[k as int] as int] == nodes@[ids@[k as int] as int]@);
        match non_text_kind_exec(&nodes[ids[k]]) {
            Some(kind) => {
                proof {
                    lemma_first_kind_prefix(nv, iv, k + 1);
                }
                return Some(kind);
            },
            None => {},
        }
        k += 1;
    }
    assert(iv.take(k as int) =~= iv);
    None
}

pub proof fn lemma_first_kind_prefix(nodes: Seq<NodeModel>, ids: Seq<int>, k: int)
    requires
        0 <= k <= ids.len(),
        first_kind(nodes, ids.take(k)) is Some,
    ensures
        first_kind(nodes, ids) == first_kind(nodes, ids.take(k)),
    decreases ids.len(),
{
    if k == ids.len() {
        assert(ids.take(k) =~= ids);
    } else {
        assert(ids.drop_last().take(k) =~= ids.take(k));
        lemma_first_kind_prefix(nodes, ids.drop_last(), k);
    }
}

fn text_content_exec(nodes: &[XmlNode], ids: &[usize]) -> (r: Vec<char>)
    requires
        forall|k: int| 0 <= k < ids@.len() ==> #[trigger] ids@[k] < nodes@.len(),
    ensures
        r@ == text_content(nodes_view(nodes@), ids@.map_values(|x: usize| x as int)),
{
    let ghost nv = nodes_view(nodes@);
    let ghost iv = ids@.map_values(|x: usize| x as int);
    let mut out: Vec<char> = Vec::new();
    let mut k: usize = 0;
    assert(iv.take(0) =~= Seq::<int>::empty());
    while k < ids.len()
        invariant
            k <= ids@.len(),
            nv == nodes_view(nodes@),
            iv == ids@.map_values(|x: usize| x as int),
            forall|q: int| 0 <= q < ids@.len() ==> #[trigger] ids@[q] < nodes@.len(),
            out@ == text_content(nv, iv.take(k as int)),
        decreases ids.len() - k,
    {
        assert(iv.take(k + 1).drop_last() =~= iv.take(k as int));
        assert(iv.take(k + 1).last() == ids@[k as int] as int);
        assert(nv[ids@[k as int] as int] == nodes@[ids@[k as int] as int]@);
        if !nodes[ids[k]].element {
            match &nodes[ids[k]].text {
                Some(t) => crate::text::extend_str(&mut out, t.as_str()),
                None => {},
            }
        }
        assert(out@ =~= text_content(nv, iv.take(k + 1)));
        k += 1;
    }
    assert(iv.take(k as int) =~= iv);
    out
}

fn placeholder(kind: &str, number: Option<usize>) -> (r: String)
    ensures
        r@ == match number {
            Some(n) => "["@ + kind@ + " "@ + decimal(n as nat) + " not reproduced]"@,
            None => "["@ + kind@ + " not reproduced]"@,
        },
{
    let mut out = "[".to_owned();
    push_str(&mut out, kind);
    if let Some(n) = number {
        push_str(&mut out, " ");
        push_str(&mut out, string_of(crate::text::decimal_chars(n as u64).as_slice()).as_str());
    }
    push_str(&mut out, " not reproduced]");
    out
}

/// A paragraph or claim as plain text; `number` is the paragraph's.
fn plain_text(nodes: &[XmlNode], n: usize, number: Option<usize>) -> (r: String)
    ensures
        r@ == match number {
            Some(k) => paragraph_model(nodes_view(nodes@), n as int, k as nat),
            None => claim_text_model(nodes_view(nodes@), n as int),
        },
{
    let below = select_exec(nodes, n, false);
    match first_kind_exec(nodes, below.as_slice()) {
        Some(kind) => placeholder(kind, number),
        None => {
            let text = text_content_exec(nodes, below.as_slice());
            assert(text@.subrange(0, text@.len() as int) =~= text@);
            string_of(normalise_range(text.as_slice(), 0, text.len()).as_slice())
        },
    }
}

/// The description in `lang` (in any ASCII case) of a parsed response: its
/// language as given, and its paragraphs, one per line, numbered from 1 in
/// placeholders.
pub fn description_of(nodes: &[XmlNode], lang: &str) -> (r: Option<(String, String)>)
    ensures
        pair_view(r) == description_model(nodes_view(nodes@), lang@),
{
    let ghost nv = nodes_view(nodes@);
    let all = all_node_ids(nodes);
    let d = match section_exec(nodes, all.as_slice(), "description", lang) {
        Some(d) => d,
        None => {
            return None;
        },
    };
    assert(nv[d as int] == nodes@[d as int]@);
    proof {
        lemma_section_found(nv, all@.map_values(|x: usize| x as int), "description"@, lang@);
    }
    let found_lang = match attribute(&nodes[d], "lang") {
        Some(l) => l.to_owned(),
        None => String::new(),
    };
    let kids = select_exec(nodes, d, true);
    let ps = tagged_exec(nodes, kids.as_slice(), "p");
    let ghost pv = ps@.map_values(|x: usize| x as int);
    let mut texts: Vec<String> = Vec::new();
    let mut k: usize = 0;
    assert(pv.take(0) =~= Seq::<int>::empty());
    while k < ps.len()
        invariant
            k <= ps@.len(),
            nv == nodes_view(nodes@),
            pv == ps@.map_values(|x: usize| x as int),
            forall|q: int| 0 <= q < ps@.len() ==> #[trigger] ps@[q] < nodes@.len(),
            strs_view(texts@) == numbered_paragraphs(nv, pv.take(k as int)),
        decreases ps.len() - k,
    {
        assert(pv.take(k + 1).drop_last() =~= pv.take(k as int));
        assert(pv.take(k + 1).last() == ps@[k as int] as int);
        let t = plain_text(nodes, ps[k], Some(k + 1));
        texts.push(t);
        assert(strs_view(texts@) =~= numbered_paragraphs(nv, pv.take(k + 1)));
        k += 1;
    }
    assert(pv.take(k as int) =~= pv);
    proof {
        reveal_strlit("\n");
        assert("\n"@ =~= seq!['\n']);
    }
    Some((found_lang, join_strings(texts.as_slice(), "\n")))
}

/// The claims in `lang` (in any ASCII case) of a parsed response: their
/// language as given, and every `claim-text`, one per line.
pub fn claims_of(nodes: &[XmlNode], lang: &str) -> (r: Option<(String, String)>)
    ensures
        pair_view(r) == claims_model(nodes_view(nodes@), lang@),
{
    let ghost nv = nodes_view(nodes@);
    let all = all_node_ids(nodes);
    let c = match section_exec(nodes, all.as_slice(), "claims", lang) {
        Some(c) => c,
        None => {
            return None;
        },
    };
    assert(nv[c as int] == nodes@[c as int]@);
    proof {
        lemma_section_found(nv, all@.map_values(|x: usize| x as int), "claims"@, lang@);
    }
    let found_lang = match attribute(&nodes[c], "lang") {
        Some(l) => l.to_owned(),
        None => String::new(),
    };
    let below = select_exec(nodes, c, false);
    let items = tagged_exec(nodes, below.as_slice(), "claim-text");
    let ghost iv = items@.map_values(|x: usize| x as int);
    let mut texts: Vec<String> = Vec::new();
    let mut k: usize = 0;
    while k < items.len()
        invariant
            k <= items@.len(),
            nv == nodes_view(nodes@),
            iv == items@.map_values(|x: usize| x as int),
            forall|q: int| 0 <= q < items@.len() ==> #[trigger] items@[q] < nodes@.len(),
            strs_view(texts@) == iv.take(k as int).map_values(|i: int| claim_text_model(nv, i)),
        decreases items.len() - k,
    {
        let ghost before = texts@;
        let t = plain_text(nodes, items[k], None);
        texts.push(t);
        assert(strs_view(texts@) =~= iv.take(k + 1).map_values(|i: int| claim_text_model(nv, i))) by {
            let a = strs_view(before);
            let b = iv.take(k as int).map_values(|i: int| claim_text_model(nv, i));
            let b1 = iv.take(k + 1).map_values(|i: int| claim_text_model(nv, i));
            assert(a == b);
            assert(a.len() == before.len());
            assert(b.len() == k);
            assert(texts@ == before.push(t));
            assert forall|q: int| 0 <= q < k + 1 implies #[trigger] strs_view(texts@)[q] == b1[q] by {
                if q < k {
                    assert(texts@[q] == before[q]);
                    assert(a[q] == b[q]);
                    assert(iv.take(k + 1)[q] == iv.take(k as int)[q]);
                } else {
                    assert(iv.take(k + 1)[q] == items@[k as int] as int);
                }
            }
        }
        k += 1;
    }
    assert(iv.take(k as int) =~= iv);
    proof {
        reveal_strlit("\n");
        assert("\n"@ =~= seq!['\n']);
    }
    Some((found_lang, join_strings(texts.as_slice(), "\n")))
}

/// The description's text in `lang` (see `description_of`); none when the
/// response has no description in that language.
pub fn parse_description(xml: &str, lang: &str) -> (r: Result<Option<(String, String)>, OpsError>)
    ensures
        match xml_tree(xml@) {
            Err(m) => r matches Err(OpsError::Parse(e)) && e@ == "invalid XML: "@ + m,
            Ok(nodes) => r matches Ok(x) && pair_view(x) == description_model(nodes, lang@),
        },
{
    match parse_xml(xml) {
        Ok(nodes) => Ok(description_of(nodes.as_slice(), lang)),
        Err(e) => Err(invalid_xml(e)),
    }
}

/// The claims' text in `lang` (see `claims_of`); none when the response
/// has no claims in that language.
pub fn parse_claims(xml: &str, lang: &str) -> (r: Result<Option<(String, String)>, OpsError>)
    ensures
        match xml_tree(xml@) {
            Err(m) => r matches Err(OpsError::Parse(e)) && e@ == "invalid XML: "@ + m,
            Ok(nodes) => r matches Ok(x) && pair_view(x) == claims_model(nodes, lang@),
        },
{
    match parse_xml(xml) {
        Ok(nodes) => Ok(claims_of(nodes.as_slice(), lang)),
        Err(e) => Err(invalid_xml(e)),
    }
}

} // verus!
