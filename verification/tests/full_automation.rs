use patent_tagger::domain::full_automation::{would_auto_complete, TagDecision};
use patent_tagger::domain::labels::LabelState;

#[test]
fn would_auto_complete_requires_every_tag_decided_and_none_uncertain() {
    assert!(would_auto_complete(&[TagDecision::Pos, TagDecision::Neg]));
    assert!(!would_auto_complete(&[TagDecision::Pos, TagDecision::Uncertain]));
    assert!(!would_auto_complete(&[TagDecision::Pos, TagDecision::NotAutomatic]));
    assert!(!would_auto_complete(&[]), "no tags at all is never auto-completed");
}

#[test]
fn label_states_are_stored_as_pos_and_neg() {
    assert_eq!(LabelState::Pos.as_str(), "pos");
    assert_eq!(LabelState::Neg.as_str(), "neg");
}
