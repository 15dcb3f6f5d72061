//! Errors of the OPS client.
use vstd::prelude::*;

verus! {

/// `reqwest::Error`, carried as it is.
#[verifier::external_type_specification]
#[verifier::external_body]
pub struct ExHttpError(reqwest::Error);

#[derive(Debug)]
pub enum OpsError {
    Http(reqwest::Error),
    Api { status: u16, message: String },
    Parse(String),
    Blocked(String),
    QuotaExhausted,
}

impl From<reqwest::Error> for OpsError {
    fn from(e: reqwest::Error) -> (r: Self) {
        OpsError::Http(e)
    }
}

impl vstd::std_specs::convert::FromSpecImpl<reqwest::Error> for OpsError {
    open spec fn obeys_from_spec() -> bool {
        true
    }

    open spec fn from_spec(e: reqwest::Error) -> OpsError {
        OpsError::Http(e)
    }
}

} // verus!

verus! {

/// The message of an OPS error body: the trimmed text of its first
/// `message` element, else the trimmed body.
pub open spec fn error_message(body: Seq<char>) -> Seq<char> {
    match crate::ops::xml::xml_tree(body) {
        Ok(nodes) => match crate::ops::xml::first_tagged(
            nodes,
            crate::ops::xml::all_ids(nodes.len()),
            "message"@,
        ) {
            Some(m) => match nodes[m].text {
                Some(t) => crate::text::trim(t),
                None => crate::text::trim(body),
            },
            None => crate::text::trim(body),
        },
        Err(_) => crate::text::trim(body),
    }
}

/// An error response. OPS error bodies are
/// `<error><code>...</code><message>...</message></error>`; the message is
/// taken from there, or is the raw body when it has another shape.
pub fn from_error_body(status: u16, body: &str) -> (r: OpsError)
    ensures
        r matches OpsError::Api { status: s, message: m } && s == status && m@ == error_message(body@),
{
    let raw = crate::text::trim_str(body).to_owned();
    match crate::ops::xml::parse_xml(body) {
        Ok(nodes) => {
            let ghost nv = crate::ops::xml::nodes_view(nodes@);
            let all = crate::ops::xml::all_node_ids(nodes.as_slice());
            let message = match crate::ops::xml::first_tagged_exec(nodes.as_slice(), all.as_slice(), "message") {
                Some(m) => {
                    assert(nv[m as int] == nodes@[m as int]@);
                    match &nodes[m].text {
                        Some(t) => crate::text::trim_str(t.as_str()).to_owned(),
                        None => raw,
                    }
                },
                None => raw,
            };
            OpsError::Api { status, message }
        },
        Err(_) => OpsError::Api { status, message: raw },
    }
}

} // verus!
