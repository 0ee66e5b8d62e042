//! Tasks: one durably recorded request to change the search engine's state,
//! with its status, its kind and the details of its progress.

use roaring::RoaringBitmap;
use serde_json::Value;
use vstd::prelude::*;

verus! {

/// Where a task stands in its life.
#[derive(Clone, Copy, Debug, PartialEq, Eq, Structural, Hash)]
pub enum Status {
    Enqueued,
    Processing,
    Succeeded,
    Failed,
    Canceled,
}

/// The type of operation that a task asks for.
#[derive(Clone, Copy, Debug, PartialEq, Eq, Structural, Hash)]
pub enum Kind {
    DocumentAdditionOrUpdate,
    DocumentDeletion,
    SettingsUpdate,
    IndexCreation,
    IndexDeletion,
    IndexUpdate,
    IndexSwap,
    TaskCancelation,
    TaskDeletion,
    DumpCreation,
    SnapshotCreation,
}

/// How added documents meet the ones already stored under the same key.
#[derive(Clone, Copy, Debug, PartialEq, Eq, Structural, Hash)]
pub enum IndexDocumentsMethod {
    ReplaceDocuments,
    UpdateDocuments,
}

/// Two index names whose contents are to be exchanged.
#[derive(Debug)]
pub struct IndexSwap {
    pub indexes: (String, String),
}

impl Clone for IndexSwap {
    fn clone(&self) -> (r: Self)
        ensures
            r == *self,
    {
        IndexSwap { indexes: (self.indexes.0.clone(), self.indexes.1.clone()) }
    }
}

/// The error that a failed task reports.
#[derive(Clone, Debug)]
pub struct ResponseError {
    pub code: u16,
    pub message: String,
    pub error_code: String,
    pub error_type: String,
    pub error_link: String,
}

/// A task's operation together with its payload.
#[derive(Clone, Debug)]
pub enum KindWithContent {
    DocumentAdditionOrUpdate {
        index_uid: String,
        primary_key: Option<String>,
        method: IndexDocumentsMethod,
        content_file: u128,
        documents_count: u64,
        allow_index_creation: bool,
    },
    DocumentDeletion { index_uid: String, documents_ids: Vec<String> },
    DocumentDeletionByFilter { index_uid: String, filter_expr: Value },
    DocumentClear { index_uid: String },
    SettingsUpdate {
        index_uid: String,
        new_settings: String,
        is_deletion: bool,
        allow_index_creation: bool,
    },
    IndexDeletion { index_uid: String },
    IndexCreation { index_uid: String, primary_key: Option<String> },
    IndexUpdate { index_uid: String, primary_key: Option<String> },
    IndexSwap { swaps: Vec<IndexSwap> },
    TaskCancelation { query: String, tasks: RoaringBitmap },
    TaskDeletion { query: String, tasks: RoaringBitmap },
    DumpCreation,
    SnapshotCreation,
}

/// What a task has received and what it has done so far. The counts that
/// execution fills in are `None` until the task is finished.
#[derive(Clone, Debug)]
pub enum Details {
    DocumentAdditionOrUpdate { received_documents: u64, indexed_documents: Option<u64> },
    SettingsUpdate { settings: String },
    IndexInfo { primary_key: Option<String> },
    DocumentDeletion { provided_ids: usize, deleted_documents: Option<u64> },
    DocumentDeletionByFilter { original_filter: String, deleted_documents: Option<u64> },
    ClearAll { deleted_documents: Option<u64> },
    TaskCancelation { matched_tasks: u64, canceled_tasks: Option<u64>, original_filter: String },
    TaskDeletion { matched_tasks: u64, deleted_tasks: Option<u64>, original_filter: String },
    Dump { dump_uid: Option<String> },
    IndexSwap { swaps: Vec<IndexSwap> },
}

/// One task record.
#[derive(Clone, Debug)]
pub struct Task {
    pub uid: u32,
    pub enqueued_at: i128,
    pub started_at: Option<i128>,
    pub finished_at: Option<i128>,
    pub error: Option<ResponseError>,
    pub canceled_by: Option<u32>,
    pub details: Option<Details>,
    pub status: Status,
    pub kind: KindWithContent,
}

impl Status {
    /// A task in a terminal status never changes again.
    pub open spec fn terminal(self) -> bool {
        self == Status::Succeeded || self == Status::Failed || self == Status::Canceled
    }

    /// The position of the status in the order in which the export lists
    /// the statuses.
    pub open spec fn rank(self) -> int {
        match self {
            Status::Enqueued => 0,
            Status::Processing => 1,
            Status::Succeeded => 2,
            Status::Failed => 3,
            Status::Canceled => 4,
        }
    }

    /// The status in lower case, as it is written in an export.
    pub open spec fn name(self) -> Seq<char> {
        match self {
            Status::Enqueued => "enqueued"@,
            Status::Processing => "processing"@,
            Status::Succeeded => "succeeded"@,
            Status::Failed => "failed"@,
            Status::Canceled => "canceled"@,
        }
    }

    /// Whether a task may pass from `self` to `next`: an enqueued task
    /// starts processing or is canceled; a processing task reaches one of
    /// the three terminal statuses; a terminal task stays as it is.
    pub open spec fn may_become(self, next: Status) -> bool {
        match self {
            Status::Enqueued => next == Status::Processing || next == Status::Canceled,
            Status::Processing => next.terminal(),
            _ => false,
        }
    }

    /// Whether the status is terminal.
    #[verifier::when_used_as_spec(terminal)]
    pub fn is_terminal(self) -> (b: bool)
        ensures
            b == self.terminal(),
    {
        match self {
            Status::Succeeded | Status::Failed | Status::Canceled => true,
            _ => false,
        }
    }

    /// The position of the status among the statuses.
    pub fn rank_of(self) -> (r: u8)
        ensures
            r == self.rank(),
    {
        match self {
            Status::Enqueued => 0,
            Status::Processing => 1,
            Status::Succeeded => 2,
            Status::Failed => 3,
            Status::Canceled => 4,
        }
    }

    /// The status in lower case.
    pub fn as_str(self) -> (s: &'static str)
        ensures
            s@ == self.name(),
    {
        match self {
            Status::Enqueued => "enqueued",
            Status::Processing => "processing",
            Status::Succeeded => "succeeded",
            Status::Failed => "failed",
            Status::Canceled => "canceled",
        }
    }

    /// Whether a task may pass from this status to `next`.
    pub fn can_become(self, next: Status) -> (b: bool)
        ensures
            b == self.may_become(next),
    {
        match self {
            Status::Enqueued => match next {
                Status::Processing | Status::Canceled => true,
                _ => false,
            },
            Status::Processing => next.is_terminal(),
            _ => false,
        }
    }
}

impl Kind {
    /// The position of the kind in the order in which the export lists the
    /// kinds.
    pub open spec fn rank(self) -> int {
        match self {
            Kind::DocumentAdditionOrUpdate => 0,
            Kind::DocumentDeletion => 1,
            Kind::SettingsUpdate => 2,
            Kind::IndexCreation => 3,
            Kind::IndexDeletion => 4,
            Kind::IndexUpdate => 5,
            Kind::IndexSwap => 6,
            Kind::TaskCancelation => 7,
            Kind::TaskDeletion => 8,
            Kind::DumpCreation => 9,
            Kind::SnapshotCreation => 10,
        }
    }

    /// The kind in camel case, as it is written in an export.
    pub open spec fn name(self) -> Seq<char> {
        match self {
            Kind::DocumentAdditionOrUpdate => "documentAdditionOrUpdate"@,
            Kind::DocumentDeletion => "documentDeletion"@,
            Kind::SettingsUpdate => "settingsUpdate"@,
            Kind::IndexCreation => "indexCreation"@,
            Kind::IndexDeletion => "indexDeletion"@,
            Kind::IndexUpdate => "indexUpdate"@,
            Kind::IndexSwap => "indexSwap"@,
            Kind::TaskCancelation => "taskCancelation"@,
            Kind::TaskDeletion => "taskDeletion"@,
            Kind::DumpCreation => "dumpCreation"@,
            Kind::SnapshotCreation => "snapshotCreation"@,
        }
    }

    /// The position of the kind among the kinds.
    pub fn rank_of(self) -> (r: u8)
        ensures
            r == self.rank(),
    {
        match self {
            Kind::DocumentAdditionOrUpdate => 0,
            Kind::DocumentDeletion => 1,
            Kind::SettingsUpdate => 2,
            Kind::IndexCreation => 3,
            Kind::IndexDeletion => 4,
            Kind::IndexUpdate => 5,
            Kind::IndexSwap => 6,
            Kind::TaskCancelation => 7,
            Kind::TaskDeletion => 8,
            Kind::DumpCreation => 9,
            Kind::SnapshotCreation => 10,
        }
    }

    /// The kind in camel case.
    pub fn as_str(self) -> (s: &'static str)
        ensures
            s@ == self.name(),
    {
        match self {
            Kind::DocumentAdditionOrUpdate => "documentAdditionOrUpdate",
            Kind::DocumentDeletion => "documentDeletion",
            Kind::SettingsUpdate => "settingsUpdate",
            Kind::IndexCreation => "indexCreation",
            Kind::IndexDeletion => "indexDeletion",
            Kind::IndexUpdate => "indexUpdate",
            Kind::IndexSwap => "indexSwap",
            Kind::TaskCancelation => "taskCancelation",
            Kind::TaskDeletion => "taskDeletion",
            Kind::DumpCreation => "dumpCreation",
            Kind::SnapshotCreation => "snapshotCreation",
        }
    }
}

/// The index names that a list of swaps mentions.
pub open spec fn swap_names(swaps: Seq<IndexSwap>) -> Set<Seq<char>> {
    Set::new(
        |name: Seq<char>|
            exists|i: int|
                0 <= i < swaps.len() && (swaps[i].indexes.0@ == name || swaps[i].indexes.1@
                    == name),
    )
}

impl KindWithContent {
    /// The kind of the operation, without its payload.
    pub open spec fn kind(self) -> Kind {
        match self {
            KindWithContent::DocumentAdditionOrUpdate { .. } => Kind::DocumentAdditionOrUpdate,
            KindWithContent::DocumentDeletion { .. } => Kind::DocumentDeletion,
            KindWithContent::DocumentDeletionByFilter { .. } => Kind::DocumentDeletion,
            KindWithContent::DocumentClear { .. } => Kind::DocumentDeletion,
            KindWithContent::SettingsUpdate { .. } => Kind::SettingsUpdate,
            KindWithContent::IndexDeletion { .. } => Kind::IndexDeletion,
            KindWithContent::IndexCreation { .. } => Kind::IndexCreation,
            KindWithContent::IndexUpdate { .. } => Kind::IndexUpdate,
            KindWithContent::IndexSwap { .. } => Kind::IndexSwap,
            KindWithContent::TaskCancelation { .. } => Kind::TaskCancelation,
            KindWithContent::TaskDeletion { .. } => Kind::TaskDeletion,
            KindWithContent::DumpCreation => Kind::DumpCreation,
            KindWithContent::SnapshotCreation => Kind::SnapshotCreation,
        }
    }

    /// The one index that the operation works on, where there is exactly one.
    pub open spec fn index_uid(self) -> Option<Seq<char>> {
        match self {
            KindWithContent::DocumentAdditionOrUpdate { index_uid, .. } => Some(index_uid@),
            KindWithContent::DocumentDeletion { index_uid, .. } => Some(index_uid@),
            KindWithContent::DocumentDeletionByFilter { index_uid, .. } => Some(index_uid@),
            KindWithContent::DocumentClear { index_uid } => Some(index_uid@),
            KindWithContent::SettingsUpdate { index_uid, .. } => Some(index_uid@),
            KindWithContent::IndexDeletion { index_uid } => Some(index_uid@),
            KindWithContent::IndexCreation { index_uid, .. } => Some(index_uid@),
            KindWithContent::IndexUpdate { index_uid, .. } => Some(index_uid@),
            _ => None,
        }
    }

    /// The names of the indexes that the operation targets.
    pub open spec fn targets(self) -> Set<Seq<char>> {
        match self {
            KindWithContent::IndexSwap { swaps } => swap_names(swaps@),
            _ => match self.index_uid() {
                Some(name) => set![name],
                None => Set::empty(),
            },
        }
    }

    /// The kind of the operation, without its payload.
    pub fn as_kind(&self) -> (k: Kind)
        ensures
            k == self.kind(),
    {
        match self {
            KindWithContent::DocumentAdditionOrUpdate { .. } => Kind::DocumentAdditionOrUpdate,
            KindWithContent::DocumentDeletion { .. } => Kind::DocumentDeletion,
            KindWithContent::DocumentDeletionByFilter { .. } => Kind::DocumentDeletion,
            KindWithContent::DocumentClear { .. } => Kind::DocumentDeletion,
            KindWithContent::SettingsUpdate { .. } => Kind::SettingsUpdate,
            KindWithContent::IndexDeletion { .. } => Kind::IndexDeletion,
            KindWithContent::IndexCreation { .. } => Kind::IndexCreation,
            KindWithContent::IndexUpdate { .. } => Kind::IndexUpdate,
            KindWithContent::IndexSwap { .. } => Kind::IndexSwap,
            KindWithContent::TaskCancelation { .. } => Kind::TaskCancelation,
            KindWithContent::TaskDeletion { .. } => Kind::TaskDeletion,
            KindWithContent::DumpCreation => Kind::DumpCreation,
            KindWithContent::SnapshotCreation => Kind::SnapshotCreation,
        }
    }

    /// The name of the one index that the operation works on, if it is one.
    pub fn single_index(&self) -> (r: Option<&String>)
        ensures
            match r {
                Some(name) => self.index_uid() == Some(name@),
                None => self.index_uid() is None,
            },
    {
        match self {
            KindWithContent::DocumentAdditionOrUpdate { index_uid, .. } => Some(index_uid),
            KindWithContent::DocumentDeletion { index_uid, .. } => Some(index_uid),
            KindWithContent::DocumentDeletionByFilter { index_uid, .. } => Some(index_uid),
            KindWithContent::DocumentClear { index_uid } => Some(index_uid),
            KindWithContent::SettingsUpdate { index_uid, .. } => Some(index_uid),
            KindWithContent::IndexDeletion { index_uid } => Some(index_uid),
            KindWithContent::IndexCreation { index_uid, .. } => Some(index_uid),
            KindWithContent::IndexUpdate { index_uid, .. } => Some(index_uid),
            _ => None,
        }
    }
}

} // verus!
