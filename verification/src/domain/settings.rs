//! The values of the `settings` key-value table: which key holds what, and
//! how a stored text (or its absence) becomes a setting. Reading and
//! writing the table is left to the caller; the numeric settings, which
//! are fractions, are read there too.
use vstd::prelude::*;
use crate::domain::retrieval_policy::{POLICY_AFTER_TAGGING_ALL, POLICY_ON_DEMAND};
use crate::text::{join, opt_seq, signed_decimal, str_eq};

verus! {

pub const TARGET_PRECISION_KEY: &'static str = "target_precision";
pub const TARGET_RECALL_KEY: &'static str = "target_recall";
pub const AUDIT_RATE_KEY: &'static str = "audit_rate";
pub const FULL_AUTOMATION_ENABLED_KEY: &'static str = "full_automation_enabled";
pub const FULLTEXT_POLICY_KEY: &'static str = "fulltext_retrieval_policy";
pub const DRAWINGS_POLICY_KEY: &'static str = "drawings_retrieval_policy";
pub const FULLTEXT_POLICY_TAG_IDS_KEY: &'static str = "fulltext_policy_tag_ids";
pub const DRAWINGS_POLICY_TAG_IDS_KEY: &'static str = "drawings_policy_tag_ids";

/// The full-text retrieval policy when none is stored.
pub const DEFAULT_FULLTEXT_POLICY: &'static str = POLICY_AFTER_TAGGING_ALL;

/// The drawings retrieval policy when none is stored.
pub const DEFAULT_DRAWINGS_POLICY: &'static str = POLICY_ON_DEMAND;

/// A switch: on exactly when the stored text is `true`, the default when
/// nothing is stored.
pub fn bool_setting(stored: Option<&str>, default: bool) -> (r: bool)
    ensures
        r == match stored {
            Some(s) => s@ == "true"@,
            None => default,
        },
{
    match stored {
        Some(s) => str_eq(s, "true"),
        None => default,
    }
}

/// A text setting: the stored text, else the default.
pub fn text_setting(stored: Option<String>, default: &str) -> (r: String)
    ensures
        r@ == match stored {
            Some(s) => s@,
            None => default@,
        },
{
    match stored {
        Some(s) => s,
        None => default.to_owned(),
    }
}

/// The JSON text of a list of ids: `[`, the decimals joined by `,`, `]`.
pub open spec fn ids_json(ids: Seq<i64>) -> Seq<char> {
    seq!['['] + join(ids.map_values(|i: i64| signed_decimal(i as int)), seq![',']) + seq![']']
}

/// The list of ids that a JSON text holds, when it holds one.
pub uninterp spec fn ids_from_json(text: Seq<char>) -> Option<Seq<i64>>;

pub open spec fn opt_ids(o: Option<Vec<i64>>) -> Option<Seq<i64>> {
    match o {
        Some(v) => Some(v@),
        None => None,
    }
}

/// serde_json `to_string` on a slice of `i64`: the JSON array of the ids,
/// each written in decimal, with no spaces; it does not fail on integers.
#[verifier::external_body]
fn write_ids_json(ids: &[i64]) -> (r: Option<String>)
    ensures
        opt_seq(r) == Some(ids_json(ids@)),
{
    serde_json::to_string(ids).ok()
}

/// serde_json `from_str` into a `Vec<i64>`: the ids of a JSON array of
/// integers, none for any other text; a function of the text alone.
#[verifier::external_body]
fn read_ids_json(text: &str) -> (r: Option<Vec<i64>>)
    ensures
        opt_ids(r) == ids_from_json(text@),
{
    serde_json::from_str::<Vec<i64>>(text).ok()
}

/// The stored text of a list of tag ids, as JSON.
pub fn tag_ids_text(ids: &[i64]) -> (r: String)
    ensures
        r@ == ids_json(ids@),
{
    match write_ids_json(ids) {
        Some(t) => t,
        None => String::new(),
    }
}

/// A list of tag ids read back from its stored text: empty when nothing is
/// stored or the text holds no list of ids.
pub fn tag_ids_setting(stored: Option<&str>) -> (r: Vec<i64>)
    ensures
        r@ == match stored {
            Some(s) => match ids_from_json(s@) {
                Some(ids) => ids,
                None => Seq::empty(),
            },
            None => Seq::empty(),
        },
{
    match stored {
        Some(s) => match read_ids_json(s) {
            Some(ids) => ids,
            None => Vec::new(),
        },
        None => Vec::new(),
    }
}

} // verus!
