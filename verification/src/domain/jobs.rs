//! Records of the persistent job queue.
use vstd::prelude::*;

verus! {

pub const STATE_PENDING: &'static str = "pending";
pub const STATE_RUNNING: &'static str = "running";
pub const STATE_DONE: &'static str = "done";
pub const STATE_FAILED: &'static str = "failed";

#[derive(Debug, Clone, PartialEq)]
pub struct JobRow {
    pub id: i64,
    pub kind: String,
    pub payload: String,
    pub state: String,
    pub attempts: i64,
    pub last_error: Option<String>,
}

/// How many jobs of one kind are in each state that still matters.
#[derive(Debug, Clone, PartialEq, Eq)]
pub struct JobCounts {
    pub kind: String,
    pub pending: i64,
    pub running: i64,
    pub failed: i64,
}

/// A job with the document it concerns.
#[derive(Debug, Clone, PartialEq, Eq)]
pub struct JobDetail {
    pub id: i64,
    pub kind: String,
    pub state: String,
    pub doc_id: Option<i64>,
    pub pub_key: Option<String>,
    pub attempts: i64,
    pub last_error: Option<String>,
    pub updated_at: String,
}


broadcast use vstd::string::group_string_axioms;

/// The counts of `kind` from `(state, count)` rows: a `pending` or
/// `running` row sets its count, any other row the failed count; a later
/// row replaces an earlier one of the same state, and a state without a row
/// counts zero.
pub open spec fn tally_model(rows: Seq<(String, i64)>) -> (i64, i64, i64)
    decreases rows.len(),
{
    if rows.len() == 0 {
        (0, 0, 0)
    } else {
        let (p, r, f) = tally_model(rows.drop_last());
        let (state, n) = rows.last();
        if state@ == STATE_PENDING@ {
            (n, r, f)
        } else if state@ == STATE_RUNNING@ {
            (p, n, f)
        } else {
            (p, r, n)
        }
    }
}

pub fn tally(kind: &str, rows: &[(String, i64)]) -> (r: JobCounts)
    ensures
        r.kind@ == kind@,
        (r.pending, r.running, r.failed) == tally_model(rows@),
{
    let mut counts = JobCounts { kind: kind.to_owned(), pending: 0, running: 0, failed: 0 };
    let mut i: usize = 0;
    assert(rows@.take(0) =~= Seq::<(String, i64)>::empty());
    while i < rows.len()
        invariant
            i <= rows@.len(),
            counts.kind@ == kind@,
            (counts.pending, counts.running, counts.failed) == tally_model(rows@.take(i as int)),
        decreases rows.len() - i,
    {
        assert(rows@.take(i + 1).drop_last() =~= rows@.take(i as int));
        let state = rows[i].0.as_str();
        let n = rows[i].1;
        if crate::text::str_eq(state, STATE_PENDING) {
            counts.pending = n;
        } else if crate::text::str_eq(state, STATE_RUNNING) {
            counts.running = n;
        } else {
            counts.failed = n;
        }
        i += 1;
    }
    assert(rows@.take(rows@.len() as int) =~= rows@);
    counts
}

} // verus!
