//! Whether a validated or auto-completed document is queued for full-text
//! or drawings retrieval, given the policy setting and the document's tags.
//! "never" and "on demand" both mean "not automatically after tagging".
use vstd::prelude::*;
use crate::text::str_eq;

verus! {

pub const POLICY_NEVER: &'static str = "never";
pub const POLICY_ON_DEMAND: &'static str = "on_demand";
pub const POLICY_AFTER_TAGGING_ALL: &'static str = "after_tagging_all";
pub const POLICY_AFTER_TAGGING_SELECTED_TAGS: &'static str = "after_tagging_selected_tags";

pub open spec fn policy_all() -> Seq<char> {
    POLICY_AFTER_TAGGING_ALL@
}

pub open spec fn policy_selected() -> Seq<char> {
    POLICY_AFTER_TAGGING_SELECTED_TAGS@
}

/// The retrieval decision: every document under "after tagging, all";
/// under "after tagging, selected tags" a document carrying one of the
/// policy's tags; otherwise none.
pub open spec fn retrieves(policy: Seq<char>, policy_tag_ids: Seq<i64>, document_tag_ids: Seq<i64>) -> bool {
    if policy == policy_all() {
        true
    } else if policy == policy_selected() {
        exists|i: int| 0 <= i < document_tag_ids.len() && policy_tag_ids.contains(#[trigger] document_tag_ids[i])
    } else {
        false
    }
}

fn contains_id(ids: &[i64], id: i64) -> (r: bool)
    ensures
        r == ids@.contains(id),
{
    let mut i: usize = 0;
    while i < ids.len()
        invariant
            i <= ids.len(),
            forall|k: int| 0 <= k < i ==> ids@[k] != id,
        decreases ids.len() - i,
    {
        if ids[i] == id {
            return true;
        }
        i += 1;
    }
    false
}

pub fn should_retrieve_after_tagging(policy: &str, policy_tag_ids: &[i64], document_tag_ids: &[i64]) -> (r: bool)
    ensures
        r == retrieves(policy@, policy_tag_ids@, document_tag_ids@),
{
    if str_eq(policy, POLICY_AFTER_TAGGING_ALL) {
        return true;
    }
    if !str_eq(policy, POLICY_AFTER_TAGGING_SELECTED_TAGS) {
        return false;
    }
    let mut i: usize = 0;
    while i < document_tag_ids.len()
        invariant
            i <= document_tag_ids.len(),
            policy@ == policy_selected(),
            policy@ != policy_all(),
            forall|k: int| 0 <= k < i ==> !policy_tag_ids@.contains(#[trigger] document_tag_ids@[k]),
        decreases document_tag_ids.len() - i,
    {
        if contains_id(policy_tag_ids, document_tag_ids[i]) {
            proof {
                reveal_strlit("after_tagging_all");
                reveal_strlit("after_tagging_selected_tags");
                assert(policy_all().len() != policy_selected().len());
                assert(policy_tag_ids@.contains(document_tag_ids@[i as int]));
            }
            return true;
        }
        i += 1;
    }
    proof {
        reveal_strlit("after_tagging_all");
        reveal_strlit("after_tagging_selected_tags");
        assert(policy_all().len() != policy_selected().len());
    }
    false
}

} // verus!
