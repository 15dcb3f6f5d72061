//! Audits of automatic decisions: how the human decisions that followed
//! them count. Each audit pairs an automatic label's state with the state
//! a human later gave the same document and tag.
use vstd::prelude::*;
use crate::text::str_eq;

verus! {

broadcast use vstd::string::group_string_axioms;

/// How many of the automatic decisions were confirmed (`pos` by the human
/// too).
pub open spec fn confirmed_model(states: Seq<String>) -> nat
    decreases states.len(),
{
    if states.len() == 0 {
        0
    } else {
        confirmed_model(states.drop_last()) + if states.last()@ == "pos"@ {
            1nat
        } else {
            0nat
        }
    }
}

/// The human states that confirm an automatic `pos`: how many are `pos`.
pub fn confirmed_count(human_states: &[String]) -> (r: usize)
    ensures
        r == confirmed_model(human_states@),
{
    let mut n: usize = 0;
    let mut i: usize = 0;
    while i < human_states.len()
        invariant
            i <= human_states@.len(),
            n == confirmed_model(human_states@.take(i as int)),
            n <= i,
        decreases human_states.len() - i,
    {
        assert(human_states@.take(i + 1).drop_last() =~= human_states@.take(i as int));
        if str_eq(human_states[i].as_str(), "pos") {
            n += 1;
        }
        i += 1;
    }
    assert(human_states@.take(human_states@.len() as int) =~= human_states@);
    n
}

/// True positives, false positives and false negatives of `(automatic,
/// human)` state pairs: an automatic `pos` is a true positive when the
/// human agreed and a false one otherwise; an automatic `neg` that the
/// human made `pos` is a false negative; a confirmed `neg` counts nowhere.
pub open spec fn audit_counts_model(pairs: Seq<(String, String)>) -> (nat, nat, nat)
    decreases pairs.len(),
{
    if pairs.len() == 0 {
        (0, 0, 0)
    } else {
        let (tp, fp, fn_) = audit_counts_model(pairs.drop_last());
        let (auto, human) = pairs.last();
        if auto@ == "pos"@ {
            if human@ == "pos"@ {
                (tp + 1, fp, fn_)
            } else {
                (tp, fp + 1, fn_)
            }
        } else if auto@ == "neg"@ && human@ == "pos"@ {
            (tp, fp, fn_ + 1)
        } else {
            (tp, fp, fn_)
        }
    }
}

proof fn lemma_audit_counts_bound(pairs: Seq<(String, String)>)
    ensures
        audit_counts_model(pairs).0 + audit_counts_model(pairs).1 + audit_counts_model(pairs).2 <= pairs.len(),
    decreases pairs.len(),
{
    if pairs.len() > 0 {
        lemma_audit_counts_bound(pairs.drop_last());
    }
}

pub fn audit_counts(pairs: &[(String, String)]) -> (r: (u32, u32, u32))
    requires
        pairs@.len() <= u32::MAX,
    ensures
        (r.0 as nat, r.1 as nat, r.2 as nat) == audit_counts_model(pairs@),
{
    let mut tp: u32 = 0;
    let mut fp: u32 = 0;
    let mut fn_: u32 = 0;
    let mut i: usize = 0;
    while i < pairs.len()
        invariant
            i <= pairs@.len(),
            pairs@.len() <= u32::MAX,
            (tp as nat, fp as nat, fn_ as nat) == audit_counts_model(pairs@.take(i as int)),
        decreases pairs.len() - i,
    {
        proof {
            lemma_audit_counts_bound(pairs@.take(i as int));
        }
        assert(pairs@.take(i + 1).drop_last() =~= pairs@.take(i as int));
        let (auto, human) = &pairs[i];
        if str_eq(auto.as_str(), "pos") {
            if str_eq(human.as_str(), "pos") {
                tp += 1;
            } else {
                fp += 1;
            }
        } else if str_eq(auto.as_str(), "neg") && str_eq(human.as_str(), "pos") {
            fn_ += 1;
        }
        i += 1;
    }
    assert(pairs@.take(pairs@.len() as int) =~= pairs@);
    (tp, fp, fn_)
}

} // verus!
