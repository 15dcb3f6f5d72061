//! Full automation: the per-document auto-completion decision over the
//! per-tag decisions.
use vstd::prelude::*;

verus! {

#[derive(Debug, Clone, Copy, PartialEq, Eq)]
pub enum TagDecision {
    /// Score at or above the tag's threshold.
    Pos,
    /// Score below the tag's negative threshold.
    Neg,
    /// A score between the thresholds, an uncalibrated tag, or no score.
    Uncertain,
    /// The tag is not in automatic mode.
    NotAutomatic,
}

#[derive(Debug, Clone, Copy, PartialEq, Eq)]
pub struct ReadinessResult {
    pub would_auto_complete: i64,
    pub total: i64,
}

pub open spec fn is_confident(d: TagDecision) -> bool {
    d is Pos || d is Neg
}

/// A document is auto-completed when every active tag was decided
/// confidently, and there is at least one active tag.
pub fn would_auto_complete(decisions: &[TagDecision]) -> (r: bool)
    ensures
        r == (decisions@.len() > 0 && forall|i: int| 0 <= i < decisions@.len() ==> is_confident(#[trigger] decisions@[i])),
{
    if decisions.len() == 0 {
        return false;
    }
    let mut i: usize = 0;
    while i < decisions.len()
        invariant
            i <= decisions.len(),
            forall|k: int| 0 <= k < i ==> is_confident(#[trigger] decisions@[k]),
        decreases decisions.len() - i,
    {
        match decisions[i] {
            TagDecision::Pos | TagDecision::Neg => {},
            _ => return false,
        }
        i += 1;
    }
    true
}

/// The 32 bits that decide whether a document is sampled for an audit: a
/// fixed hash of its id, so that the same document always samples the same
/// way at a given rate (the caller compares them, as a fraction of
/// `u32::MAX`, with the rate).
pub open spec fn audit_bits_model(doc_id: i64) -> u32 {
    let h = (doc_id as u64).wrapping_mul(2_654_435_761u64).wrapping_add(0x9E37_79B9_7F4A_7C15u64);
    let h = (h ^ (h >> 15u64)).wrapping_mul(0x2545_F491_4F6C_DD1Du64);
    (h >> 32u64) as u32
}

pub fn audit_bits(doc_id: i64) -> (r: u32)
    ensures
        r == audit_bits_model(doc_id),
{
    let h = (doc_id as u64).wrapping_mul(2_654_435_761u64).wrapping_add(0x9E37_79B9_7F4A_7C15u64);
    let h = (h ^ (h >> 15u64)).wrapping_mul(0x2545_F491_4F6C_DD1Du64);
    (h >> 32u64) as u32
}

} // verus!
