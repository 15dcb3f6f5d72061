//! `published-data/search/biblio`: a CQL query answered with one page of
//! results and their bibliographic data.
use vstd::prelude::*;
use crate::ops::biblio::{invalid_xml, pub_matches, publications, publications_model, PubModel, Publication};
use crate::ops::error::OpsError;
use crate::ops::xml::{all_ids, all_node_ids, attr, attribute, first_tagged, first_tagged_exec, nodes_view, parse_xml, xml_tree, NodeModel, XmlNode};
use crate::text::{chars_of, parse_i64, parse_i64_exec, push_char, push_str, signed_chars, signed_decimal, string_of};

verus! {

broadcast use vstd::string::group_string_axioms;

#[derive(Debug, Clone, PartialEq, Eq)]
pub struct SearchPage {
    /// Results matching the query, including those beyond the 2,000 OPS
    /// lets a client read.
    pub total_results: i64,
    pub publications: Vec<Publication>,
}

/// The UTF-8 encoding of a character.
pub open spec fn utf8(c: char) -> Seq<u8> {
    let v = c as int;
    if v < 0x80 {
        seq![v as u8]
    } else if v < 0x800 {
        seq![(0xC0 + v / 64) as u8, (0x80 + v % 64) as u8]
    } else if v < 0x10000 {
        seq![(0xE0 + v / 4096) as u8, (0x80 + (v / 64) % 64) as u8, (0x80 + v % 64) as u8]
    } else {
        seq![
            (0xF0 + v / 262144) as u8,
            (0x80 + (v / 4096) % 64) as u8,
            (0x80 + (v / 64) % 64) as u8,
            (0x80 + v % 64) as u8,
        ]
    }
}

/// RFC 3986 unreserved: ASCII letters and digits, `-`, `.`, `_`, `~`.
pub open spec fn unreserved(b: u8) -> bool {
    (48 <= b <= 57) || (65 <= b <= 90) || (97 <= b <= 122) || b == 45 || b == 46 || b == 95 || b == 126
}

/// The uppercase hexadecimal digit for `d < 16`.
pub open spec fn hex_digit(d: int) -> char {
    if d < 10 {
        (48 + d) as char
    } else {
        (55 + d) as char
    }
}

/// One byte of a percent-encoded text.
pub open spec fn encode_byte(b: u8) -> Seq<char> {
    if unreserved(b) {
        seq![b as char]
    } else {
        seq!['%', hex_digit((b / 16) as int), hex_digit((b % 16) as int)]
    }
}

pub open spec fn encode_bytes(bs: Seq<u8>) -> Seq<char>
    decreases bs.len(),
{
    if bs.len() == 0 {
        Seq::empty()
    } else {
        encode_bytes(bs.drop_last()) + encode_byte(bs.last())
    }
}

/// Every byte of the UTF-8 text percent-encoded but RFC 3986 unreserved
/// characters.
pub open spec fn percent_encoded(s: Seq<char>) -> Seq<char>
    decreases s.len(),
{
    if s.len() == 0 {
        Seq::empty()
    } else {
        percent_encoded(s.drop_last()) + encode_bytes(utf8(s.last()))
    }
}

/// A character that a URL query value may hold as it is: `%`, or an ASCII
/// character that RFC 3986 leaves unreserved.
pub open spec fn url_safe(c: char) -> bool {
    c == '%' || ((c as u32) < 128 && unreserved(c as u8))
}

pub open spec fn all_url_safe(s: Seq<char>) -> bool {
    forall|i: int| 0 <= i < s.len() ==> url_safe(#[trigger] s[i])
}

proof fn lemma_concat_url_safe(a: Seq<char>, b: Seq<char>)
    requires
        all_url_safe(a),
        all_url_safe(b),
    ensures
        all_url_safe(a + b),
{
    assert forall|i: int| 0 <= i < (a + b).len() implies url_safe(#[trigger] (a + b)[i]) by {
        if i < a.len() {
            assert((a + b)[i] == a[i]);
        } else {
            assert((a + b)[i] == b[i - a.len()]);
        }
    }
}

proof fn lemma_encode_bytes_safe(bs: Seq<u8>)
    ensures
        all_url_safe(encode_bytes(bs)),
    decreases bs.len(),
{
    if bs.len() > 0 {
        lemma_encode_bytes_safe(bs.drop_last());
        let b = bs.last();
        let e = encode_byte(b);
        assert(all_url_safe(e)) by {
            if !unreserved(b) {
                let hi = (b / 16) as int;
                let lo = (b % 16) as int;
                assert(url_safe(hex_digit(hi)));
                assert(url_safe(hex_digit(lo)));
                assert(e[0] == '%' && e[1] == hex_digit(hi) && e[2] == hex_digit(lo));
            } else {
                assert(e[0] == b as char);
            }
        }
        lemma_concat_url_safe(encode_bytes(bs.drop_last()), e);
    }
}

/// A percent-encoded value holds nothing that could end or split a query
/// parameter: only `%` and unreserved ASCII characters.
pub proof fn law_percent_encoded_is_url_safe(s: Seq<char>)
    ensures
        all_url_safe(percent_encoded(s)),
    decreases s.len(),
{
    if s.len() > 0 {
        law_percent_encoded_is_url_safe(s.drop_last());
        lemma_encode_bytes_safe(utf8(s.last()));
        lemma_concat_url_safe(percent_encoded(s.drop_last()), encode_bytes(utf8(s.last())));
    }
}

fn hex_exec(d: u8) -> (r: char)
    requires
        d < 16,
    ensures
        r == hex_digit(d as int),
{
    if d < 10 {
        crate::text::digit_of(d as u32)
    } else {
        crate::text::upper_letter_of((d - 10) as u32)
    }
}

fn push_byte(out: &mut String, b: u8)
    ensures
        final(out)@ == old(out)@ + encode_byte(b),
{
    let unreserved_byte = (48 <= b && b <= 57) || (65 <= b && b <= 90) || (97 <= b && b <= 122) || b == 45 || b
        == 46 || b == 95 || b == 126;
    if unreserved_byte {
        push_char(out, crate::text::ascii_of(b));
    } else {
        push_char(out, '%');
        push_char(out, hex_exec(b / 16));
        push_char(out, hex_exec(b % 16));
    }
}

fn utf8_exec(c: char) -> (r: Vec<u8>)
    ensures
        r@ == utf8(c),
{
    let v = c as u32;
    let mut r: Vec<u8> = Vec::new();
    if v < 0x80 {
        r.push(v as u8);
    } else if v < 0x800 {
        r.push((0xC0 + v / 64) as u8);
        r.push((0x80 + v % 64) as u8);
    } else if v < 0x10000 {
        r.push((0xE0 + v / 4096) as u8);
        r.push((0x80 + (v / 64) % 64) as u8);
        r.push((0x80 + v % 64) as u8);
    } else {
        r.push((0xF0 + v / 262144) as u8);
        r.push((0x80 + (v / 4096) % 64) as u8);
        r.push((0x80 + (v / 64) % 64) as u8);
        r.push((0x80 + v % 64) as u8);
    }
    assert(r@ =~= utf8(c));
    r
}

/// Percent-encodes everything but RFC 3986 unreserved characters.
pub fn percent_encode(value: &str) -> (r: String)
    ensures
        r@ == percent_encoded(value@),
{
    let v = chars_of(value);
    let mut out = String::new();
    let mut i: usize = 0;
    while i < v.len()
        invariant
            i <= v@.len(),
            out@ == percent_encoded(v@.take(i as int)),
        decreases v.len() - i,
    {
        assert(v@.take(i + 1).drop_last() =~= v@.take(i as int));
        let bytes = utf8_exec(v[i]);
        let ghost start = out@;
        let mut k: usize = 0;
        assert(bytes@.take(0) =~= Seq::<u8>::empty());
        while k < bytes.len()
            invariant
                k <= bytes@.len(),
                out@ == start + encode_bytes(bytes@.take(k as int)),
            decreases bytes.len() - k,
        {
            assert(bytes@.take(k + 1).drop_last() =~= bytes@.take(k as int));
            push_byte(&mut out, bytes[k]);
            assert(out@ =~= start + encode_bytes(bytes@.take(k + 1)));
            k += 1;
        }
        assert(bytes@.take(k as int) =~= bytes@);
        i += 1;
    }
    assert(v@.take(v.len() as int) =~= v@);
    out
}

/// The request path for results `begin..=end` (1-based) of `query`; the
/// range goes in the `Range` query parameter.
pub fn path(query: &str, begin: i64, end: i64) -> (r: String)
    ensures
        r@ == "/published-data/search/biblio?q="@ + percent_encoded(query@) + "&Range="@ + signed_decimal(
            begin as int,
        ) + seq!['-'] + signed_decimal(end as int),
{
    let mut out = "/published-data/search/biblio?q=".to_owned();
    push_str(&mut out, percent_encode(query).as_str());
    push_str(&mut out, "&Range=");
    push_str(&mut out, string_of(signed_chars(begin).as_slice()).as_str());
    push_char(&mut out, '-');
    push_str(&mut out, string_of(signed_chars(end).as_slice()).as_str());
    out
}

/// The total result count of a search response: the `total-result-count`
/// of its first `biblio-search` element.
pub open spec fn total_model(nodes: Seq<NodeModel>) -> Option<i64> {
    match first_tagged(nodes, all_ids(nodes.len()), "biblio-search"@) {
        Some(b) => match attr(nodes[b], "total-result-count"@) {
            Some(v) => parse_i64(v),
            None => None,
        },
        None => None,
    }
}

/// A search response: its total count and its publications, or the reason
/// it cannot be read.
pub open spec fn page_matches(r: Result<SearchPage, OpsError>, nodes: Seq<NodeModel>) -> bool {
    match total_model(nodes) {
        None => r matches Err(OpsError::Parse(m)) && m@ == "search response without total-result-count"@,
        Some(total) => match (r, publications_model(nodes)) {
            (Ok(page), Ok(ps)) => page.total_results == total && page.publications@.len() == ps.len() && forall|k: int|
                0 <= k < ps.len() ==> pub_matches(#[trigger] page.publications@[k], ps[k]),
            (Err(OpsError::Parse(m)), Err(e)) => m@ == e,
            _ => false,
        },
    }
}

/// The search page of a parsed response.
pub fn page_of(nodes: &[XmlNode]) -> (r: Result<SearchPage, OpsError>)
    ensures
        page_matches(r, nodes_view(nodes@)),
{
    let ghost nv = nodes_view(nodes@);
    let all = all_node_ids(nodes);
    let missing_total = OpsError::Parse("search response without total-result-count".to_owned());
    let total = match first_tagged_exec(nodes, all.as_slice(), "biblio-search") {
        Some(b) => {
            assert(nv[b as int] == nodes@[b as int]@);
            match attribute(&nodes[b], "total-result-count") {
                Some(v) => {
                    let cs = chars_of(v);
                    assert(cs@.subrange(0, cs@.len() as int) =~= cs@);
                    match parse_i64_exec(cs.as_slice(), 0, cs.len()) {
                        Some(t) => t,
                        None => {
                            return Err(missing_total);
                        },
                    }
                },
                None => {
                    return Err(missing_total);
                },
            }
        },
        None => {
            return Err(missing_total);
        },
    };
    match publications(nodes) {
        Ok(ps) => Ok(SearchPage { total_results: total, publications: ps }),
        Err(e) => Err(e),
    }
}

/// Reads a search response: the total count, then the publications.
pub fn parse(xml: &str) -> (r: Result<SearchPage, OpsError>)
    ensures
        match xml_tree(xml@) {
            Err(m) => r matches Err(OpsError::Parse(e)) && e@ == "invalid XML: "@ + m,
            Ok(nodes) => page_matches(r, nodes),
        },
{
    match parse_xml(xml) {
        Ok(nodes) => page_of(nodes.as_slice()),
        Err(e) => Err(invalid_xml(e)),
    }
}

/// OPS's answer to a query that matches nothing: a 404.
pub open spec fn no_match(e: OpsError) -> bool {
    match e {
        OpsError::Api { status, message: _ } => status == 404,
        _ => false,
    }
}

/// The page a search request gives: its response parsed; for a query
/// that matches nothing an empty page; any other failure as it is.
pub fn page_from(response: Result<String, OpsError>) -> (r: Result<SearchPage, OpsError>)
    ensures
        match response {
            Ok(body) => match xml_tree(body@) {
                Err(m) => r matches Err(OpsError::Parse(e)) && e@ == "invalid XML: "@ + m,
                Ok(nodes) => page_matches(r, nodes),
            },
            Err(e) => if no_match(e) {
                r matches Ok(p) && p.total_results == 0 && p.publications@.len() == 0
            } else {
                r == Err::<SearchPage, OpsError>(e)
            },
        },
{
    match response {
        Ok(body) => parse(body.as_str()),
        Err(OpsError::Api { status: 404, message: _ }) => Ok(SearchPage { total_results: 0, publications: Vec::new() }),
        Err(e) => Err(e),
    }
}

} // verus!
