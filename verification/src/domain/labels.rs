//! Label states as stored, and the state a human review gives a tag.
use vstd::prelude::*;

verus! {

#[derive(Debug, Clone, Copy, PartialEq, Eq)]
pub enum LabelState {
    Pos,
    Neg,
}

impl LabelState {
    /// The stored spelling of the state.
    pub fn as_str(self) -> (r: &'static str)
        ensures
            r@ == (match self {
                LabelState::Pos => "pos"@,
                LabelState::Neg => "neg"@,
            }),
    {
        match self {
            LabelState::Pos => "pos",
            LabelState::Neg => "neg",
        }
    }
}


/// The state a validated review gives a tag: `pos` when it was checked,
/// `neg` otherwise.
pub fn human_state(checked_tag_ids: &[i64], tag_id: i64) -> (r: LabelState)
    ensures
        r == if checked_tag_ids@.contains(tag_id) {
            LabelState::Pos
        } else {
            LabelState::Neg
        },
{
    let mut i: usize = 0;
    while i < checked_tag_ids.len()
        invariant
            i <= checked_tag_ids@.len(),
            forall|k: int| 0 <= k < i ==> checked_tag_ids@[k] != tag_id,
        decreases checked_tag_ids.len() - i,
    {
        if checked_tag_ids[i] == tag_id {
            return LabelState::Pos;
        }
        i += 1;
    }
    LabelState::Neg
}

} // verus!
