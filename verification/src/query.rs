//! Filters over the tasks of a store.

use crate::table::in_range;
use crate::task::{Kind, Status, Task};
use vstd::prelude::*;

verus! {

/// A filter over the tasks. A list that is empty, and a pair of bounds that
/// are both absent, let every task pass.
#[derive(Debug)]
pub struct Query {
    pub statuses: Vec<Status>,
    pub kinds: Vec<Kind>,
    pub index_uids: Vec<String>,
    pub uids: Vec<u32>,
    pub after_enqueued_at: Option<i128>,
    pub before_enqueued_at: Option<i128>,
    pub after_started_at: Option<i128>,
    pub before_started_at: Option<i128>,
    pub after_finished_at: Option<i128>,
    pub before_finished_at: Option<i128>,
    /// Whether the result is to come in decreasing order.
    pub reverse: bool,
}

/// A date passes a pair of bounds when there is no bound, or when it is set
/// and lies strictly between them.
pub open spec fn date_matches(at: Option<i128>, after: Option<i128>, before: Option<i128>) -> bool {
    (after is None && before is None) || (at matches Some(x) && in_range(x, after, before))
}

impl Query {
    /// Whether the status of a task passes: no status is asked for, or
    /// the one of the task is among those asked for.
    pub open spec fn status_ok(self, t: Task) -> bool {
        self.statuses@.len() == 0 || exists|j: int|
            0 <= j < self.statuses@.len() && (#[trigger] self.statuses@[j]) == t.status
    }

    /// Whether the kind of a task passes.
    pub open spec fn kind_ok(self, t: Task) -> bool {
        self.kinds@.len() == 0 || exists|j: int|
            0 <= j < self.kinds@.len() && (#[trigger] self.kinds@[j]) == t.kind.kind()
    }

    /// Whether the indexes of a task pass: no index is asked for, or the
    /// task targets one of those asked for.
    pub open spec fn index_ok(self, t: Task) -> bool {
        self.index_uids@.len() == 0 || exists|j: int|
            0 <= j < self.index_uids@.len() && t.kind.targets().contains(
                (#[trigger] self.index_uids@[j])@,
            )
    }

    /// Whether the identifier of a task passes.
    pub open spec fn uid_ok(self, t: Task) -> bool {
        self.uids@.len() == 0 || exists|j: int|
            0 <= j < self.uids@.len() && (#[trigger] self.uids@[j]) == t.uid
    }

    /// Whether the three dates of a task pass their bounds.
    pub open spec fn dates_ok(self, t: Task) -> bool {
        &&& date_matches(Some(t.enqueued_at), self.after_enqueued_at, self.before_enqueued_at)
        &&& date_matches(t.started_at, self.after_started_at, self.before_started_at)
        &&& date_matches(t.finished_at, self.after_finished_at, self.before_finished_at)
    }

    /// Whether a task passes the filter: each part of the filter that is
    /// given must let it pass.
    pub open spec fn matches(self, t: Task) -> bool {
        &&& self.status_ok(t)
        &&& self.kind_ok(t)
        &&& self.index_ok(t)
        &&& self.uid_ok(t)
        &&& self.dates_ok(t)
    }

    /// A filter that lets every task pass, in increasing order.
    pub fn new() -> (q: Query)
        ensures
            q.statuses@.len() == 0,
            q.kinds@.len() == 0,
            q.index_uids@.len() == 0,
            q.uids@.len() == 0,
            q.after_enqueued_at is None,
            q.before_enqueued_at is None,
            q.after_started_at is None,
            q.before_started_at is None,
            q.after_finished_at is None,
            q.before_finished_at is None,
            !q.reverse,
            forall|t: Task| q.matches(t),
    {
        Query {
            statuses: Vec::new(),
            kinds: Vec::new(),
            index_uids: Vec::new(),
            uids: Vec::new(),
            after_enqueued_at: None,
            before_enqueued_at: None,
            after_started_at: None,
            before_started_at: None,
            after_finished_at: None,
            before_finished_at: None,
            reverse: false,
        }
    }
}

} // verus!
