use patent_tagger::domain::retrieval_policy::{
    should_retrieve_after_tagging, POLICY_AFTER_TAGGING_ALL, POLICY_AFTER_TAGGING_SELECTED_TAGS,
    POLICY_NEVER, POLICY_ON_DEMAND,
};

#[test]
fn after_tagging_all_always_retrieves() {
    assert!(should_retrieve_after_tagging(POLICY_AFTER_TAGGING_ALL, &[], &[]));
    assert!(should_retrieve_after_tagging(POLICY_AFTER_TAGGING_ALL, &[1, 2], &[3]));
}

#[test]
fn never_and_on_demand_never_retrieve_automatically() {
    assert!(!should_retrieve_after_tagging(POLICY_NEVER, &[1], &[1]));
    assert!(!should_retrieve_after_tagging(POLICY_ON_DEMAND, &[1], &[1]));
}

#[test]
fn selected_tags_requires_overlap_with_the_documents_tags() {
    assert!(should_retrieve_after_tagging(POLICY_AFTER_TAGGING_SELECTED_TAGS, &[1, 2], &[2, 3]));
    assert!(!should_retrieve_after_tagging(POLICY_AFTER_TAGGING_SELECTED_TAGS, &[1, 2], &[3, 4]));
    assert!(!should_retrieve_after_tagging(POLICY_AFTER_TAGGING_SELECTED_TAGS, &[1, 2], &[]));
}

#[test]
fn an_unknown_policy_never_retrieves() {
    assert!(!should_retrieve_after_tagging("sometimes", &[1], &[1]));
}
