//! Document records as stored.
use vstd::prelude::*;

verus! {

#[derive(Debug, Clone, PartialEq)]
pub struct DocumentRow {
    pub id: i64,
    pub pub_key: String,
    pub input_raw: String,
    pub application_number: Option<String>,
    pub family_id: Option<String>,
    pub fetch_status: String,
    pub review_state: String,
}

/// A document with its bibliographic data, as the View screen and the
/// export show it.
#[derive(Debug, Clone, PartialEq)]
pub struct DocumentDetail {
    pub id: i64,
    pub pub_key: String,
    pub title: Option<String>,
    pub abstract_text: Option<String>,
    pub abstract_source: Option<String>,
    pub applicants: Vec<String>,
    pub publication_date: Option<String>,
    pub cpc: Vec<String>,
    pub kind_codes: Vec<String>,
}

impl Default for DocumentDetail {
    fn default() -> (r: Self)
        ensures
            r.id == 0,
            r.pub_key@ == Seq::<char>::empty(),
            r.title is None,
            r.abstract_text is None,
            r.abstract_source is None,
            r.applicants@.len() == 0,
            r.publication_date is None,
            r.cpc@.len() == 0,
            r.kind_codes@.len() == 0,
    {
        DocumentDetail {
            id: 0,
            pub_key: String::new(),
            title: None,
            abstract_text: None,
            abstract_source: None,
            applicants: Vec::new(),
            publication_date: None,
            cpc: Vec::new(),
            kind_codes: Vec::new(),
        }
    }
}

} // verus!
