//! The export of a scheduler as text: every table of the store, the
//! processing set, the registry of the indexes and the references to the
//! payloads, in a layout that is the same for the same contents.
//!
//! The text is a function of what the scheduler holds and of nothing else.
//! It is only ever produced from a well-formed scheduler, whose records and
//! secondary indices are known to agree.

use crate::bitmap::{ascending_seq, bitmap_members, bitmap_set};
use crate::file_store::FileStore;
use crate::index_mapper::{IndexEntryView, IndexMapper, IndexStats};
use crate::json::{json_debug, value_debug_text, value_json};
use crate::scheduler::{IndexScheduler, SchedulerView};
use crate::store::TaskStore;
use crate::table::{bucket_of, sorted_keys, BitmapTable, TableKey};
use crate::task::{
    Details, IndexDocumentsMethod, IndexSwap, Kind, KindWithContent, ResponseError, Status, Task,
};
use crate::text::{
    bool_text, debug_text, decimal_text, opt_debug_text, opt_decimal_text, push_bool, push_debug,
    push_decimal, push_opt_debug, push_opt_decimal, push_uuid, uuid_text,
};
use roaring::RoaringBitmap;
use vstd::prelude::*;
use vstd::string::*;

verus! {

/// Identifiers, each followed by a comma.
pub open spec fn ids_text(ids: Seq<u32>) -> Seq<char>
    decreases ids.len(),
{
    if ids.len() == 0 {
        Seq::<char>::empty()
    } else {
        ids_text(ids.drop_last()) + decimal_text(ids.last() as nat) + ","@
    }
}

/// A set of identifiers: in square brackets, in increasing order, each
/// followed by a comma.
pub open spec fn bitmap_text(s: Set<u32>) -> Seq<char> {
    "["@ + ids_text(ascending_seq(s)) + "]"@
}

/// The text of a set of identifiers.
pub fn snapshot_bitmap(r: &RoaringBitmap) -> (snap: String)
    ensures
        snap@ == bitmap_text(bitmap_set(*r)),
{
    let ids = bitmap_members(r);
    let mut body = String::new();
    let mut i: usize = 0;
    proof {
        assert(ids@.take(0).len() == 0);
    }
    while i < ids.len()
        invariant
            i <= ids@.len(),
            body@ == ids_text(ids@.take(i as int)),
        decreases ids.len() - i,
    {
        proof {
            assert(ids@.take(i + 1).drop_last() =~= ids@.take(i as int));
            assert(ids@.take(i + 1).last() == ids@[i as int]);
        }
        push_decimal(&mut body, ids[i] as u64);
        body.append(",");
        i = i + 1;
    }
    proof {
        assert(ids@.take(ids@.len() as int) =~= ids@);
    }
    let mut snap = "[".to_owned();
    snap.append(body.as_str());
    snap.append("]");
    snap
}

/// A key of a secondary index that can be written in an export.
pub trait KeyText: TableKey {
    /// The key as it is written in an export.
    spec fn key_text(k: Self::V) -> Seq<char>;

    /// Appends the key.
    fn push_key(&self, out: &mut String)
        ensures
            final(out)@ == old(out)@ + Self::key_text(self@),
    ;
}

impl KeyText for Status {
    open spec fn key_text(k: Status) -> Seq<char> {
        k.name()
    }

    fn push_key(&self, out: &mut String) {
        out.append(self.as_str());
    }
}

/// The name of a kind between double quotes.
pub open spec fn quoted_kind(k: Kind) -> Seq<char> {
    "\""@ + k.name() + "\""@
}

impl KeyText for Kind {
    open spec fn key_text(k: Kind) -> Seq<char> {
        quoted_kind(k)
    }

    fn push_key(&self, out: &mut String) {
        let mut quoted = "\"".to_owned();
        quoted.append(self.as_str());
        quoted.append("\"");
        out.append(quoted.as_str());
    }
}

impl KeyText for String {
    open spec fn key_text(k: Seq<char>) -> Seq<char> {
        k
    }

    fn push_key(&self, out: &mut String) {
        out.append(self.as_str());
    }
}

impl KeyText for u32 {
    open spec fn key_text(k: u32) -> Seq<char> {
        decimal_text(k as nat)
    }

    fn push_key(&self, out: &mut String) {
        push_decimal(out, *self as u64);
    }
}

impl KeyText for i128 {
    /// A date is not written: an export must not depend on the clock.
    open spec fn key_text(k: i128) -> Seq<char> {
        "[timestamp]"@
    }

    fn push_key(&self, out: &mut String) {
        out.append("[timestamp]");
    }
}

/// One line for each key of `keys`: the key, a space, the set that the
/// table holds for it.
pub open spec fn rows_text<K: KeyText>(table: Map<K::V, Set<u32>>, keys: Seq<K::V>) -> Seq<char>
    decreases keys.len(),
{
    if keys.len() == 0 {
        Seq::<char>::empty()
    } else {
        rows_text::<K>(table, keys.drop_last()) + K::key_text(keys.last()) + " "@ + bitmap_text(
            table[keys.last()],
        ) + "\n"@
    }
}

/// The text of a secondary index: one line for each bucket, in the
/// increasing order of the keys.
pub open spec fn table_text<K: KeyText>(table: Map<K::V, Set<u32>>) -> Seq<char> {
    rows_text::<K>(table, sorted_keys::<K>(table))
}

/// The text of a secondary index.
pub fn snapshot_table<K: KeyText>(table: &BitmapTable<K>) -> (snap: String)
    requires
        table.wf(),
    ensures
        snap@ == table_text::<K>(table@),
{
    let mut snap = String::new();
    let mut i: usize = 0;
    let ghost keys = table.keys();
    proof {
        table.lemma_sorted_keys();
        assert(keys.take(0).len() == 0);
    }
    while i < table.len()
        invariant
            table.wf(),
            keys == table.keys(),
            i <= keys.len(),
            forall|j: int| 0 <= j < keys.len() ==> #[trigger] table.sets()[j] == table@[keys[j]],
            snap@ == rows_text::<K>(table@, keys.take(i as int)),
        decreases keys.len() - i,
    {
        proof {
            assert(keys.take(i + 1).drop_last() =~= keys.take(i as int));
            assert(keys.take(i + 1).last() == keys[i as int]);
            assert(table.sets()[i as int] == table@[keys[i as int]]);
        }
        table.key_at(i).push_key(&mut snap);
        snap.append(" ");
        let ids = snapshot_bitmap(table.ids_at(i));
        snap.append(ids.as_str());
        snap.append("\n");
        i = i + 1;
    }
    proof {
        assert(keys.take(keys.len() as int) =~= keys);
    }
    snap
}

/// The text of the secondary index by status.
pub fn snapshot_status(table: &BitmapTable<Status>) -> (snap: String)
    requires
        table.wf(),
    ensures
        snap@ == table_text::<Status>(table@),
{
    snapshot_table(table)
}

/// The text of the secondary index by kind.
pub fn snapshot_kind(table: &BitmapTable<Kind>) -> (snap: String)
    requires
        table.wf(),
    ensures
        snap@ == table_text::<Kind>(table@),
{
    snapshot_table(table)
}

/// The text of the secondary index by targeted index.
pub fn snapshot_index_tasks(table: &BitmapTable<String>) -> (snap: String)
    requires
        table.wf(),
    ensures
        snap@ == table_text::<String>(table@),
{
    snapshot_table(table)
}

/// The text of the secondary index by canceling task.
pub fn snapshot_canceled_by(table: &BitmapTable<u32>) -> (snap: String)
    requires
        table.wf(),
    ensures
        snap@ == table_text::<u32>(table@),
{
    snapshot_table(table)
}

/// The text of a secondary index by date.
pub fn snapshot_date_db(table: &BitmapTable<i128>) -> (snap: String)
    requires
        table.wf(),
    ensures
        snap@ == table_text::<i128>(table@),
{
    snapshot_table(table)
}

/// The text of the error of a task.
pub open spec fn error_text(e: ResponseError) -> Seq<char> {
    "ResponseError { code: "@ + decimal_text(e.code as nat) + ", message: "@ + debug_text(
        e.message@,
    ) + ", error_code: "@ + debug_text(e.error_code@) + ", error_type: "@ + debug_text(
        e.error_type@,
    ) + ", error_link: "@ + debug_text(e.error_link@) + " }"@
}

/// The text of the error of a task.
pub fn snapshot_error(e: &ResponseError) -> (snap: String)
    ensures
        snap@ == error_text(*e),
{
    let mut snap = "ResponseError { code: ".to_owned();
    push_decimal(&mut snap, e.code as u64);
    snap.append(", message: ");
    push_debug(&mut snap, e.message.as_str());
    snap.append(", error_code: ");
    push_debug(&mut snap, e.error_code.as_str());
    snap.append(", error_type: ");
    push_debug(&mut snap, e.error_type.as_str());
    snap.append(", error_link: ");
    push_debug(&mut snap, e.error_link.as_str());
    snap.append(" }");
    snap
}

/// Quoted strings, separated by a comma and a space.
pub open spec fn strings_text(v: Seq<String>) -> Seq<char>
    decreases v.len(),
{
    if v.len() == 0 {
        Seq::<char>::empty()
    } else if v.len() == 1 {
        debug_text(v[0]@)
    } else {
        strings_text(v.drop_last()) + ", "@ + debug_text(v.last()@)
    }
}

/// Quoted strings, separated by a comma and a space.
fn snapshot_strings(v: &Vec<String>) -> (snap: String)
    ensures
        snap@ == strings_text(v@),
{
    let mut snap = String::new();
    let mut i: usize = 0;
    proof {
        assert(v@.take(0).len() == 0);
    }
    while i < v.len()
        invariant
            i <= v@.len(),
            snap@ == strings_text(v@.take(i as int)),
        decreases v.len() - i,
    {
        proof {
            assert(v@.take(i + 1).drop_last() =~= v@.take(i as int));
            assert(v@.take(i + 1).last() == v@[i as int]);
            assert(v@.take(i + 1)[0] == v@[0]);
        }
        if i > 0 {
            snap.append(", ");
            push_debug(&mut snap, v[i].as_str());
        } else {
            push_debug(&mut snap, v[i].as_str());
            assert(snap@ =~= debug_text(v@[0]@));
        }
        i = i + 1;
    }
    proof {
        assert(v@.take(v@.len() as int) =~= v@);
    }
    snap
}

/// One swap: the two names, quoted, as a pair.
pub open spec fn swap_text(s: IndexSwap) -> Seq<char> {
    "IndexSwap { indexes: ("@ + debug_text(s.indexes.0@) + ", "@ + debug_text(s.indexes.1@)
        + ") }"@
}

/// Swaps, separated by a comma and a space.
pub open spec fn swaps_text(v: Seq<IndexSwap>) -> Seq<char>
    decreases v.len(),
{
    if v.len() == 0 {
        Seq::<char>::empty()
    } else if v.len() == 1 {
        swap_text(v[0])
    } else {
        swaps_text(v.drop_last()) + ", "@ + swap_text(v.last())
    }
}

/// The text of one swap.
fn snapshot_swap(s: &IndexSwap) -> (snap: String)
    ensures
        snap@ == swap_text(*s),
{
    let mut snap = "IndexSwap { indexes: (".to_owned();
    push_debug(&mut snap, s.indexes.0.as_str());
    snap.append(", ");
    push_debug(&mut snap, s.indexes.1.as_str());
    snap.append(") }");
    snap
}

/// The text of a list of swaps.
fn snapshot_swaps(v: &Vec<IndexSwap>) -> (snap: String)
    ensures
        snap@ == swaps_text(v@),
{
    let mut snap = String::new();
    let mut i: usize = 0;
    proof {
        assert(v@.take(0).len() == 0);
    }
    while i < v.len()
        invariant
            i <= v@.len(),
            snap@ == swaps_text(v@.take(i as int)),
        decreases v.len() - i,
    {
        proof {
            assert(v@.take(i + 1).drop_last() =~= v@.take(i as int));
            assert(v@.take(i + 1).last() == v@[i as int]);
            assert(v@.take(i + 1)[0] == v@[0]);
        }
        let one = snapshot_swap(&v[i]);
        if i > 0 {
            snap.append(", ");
            snap.append(one.as_str());
        } else {
            snap.append(one.as_str());
            assert(snap@ =~= swap_text(v@[0]));
        }
        i = i + 1;
    }
    proof {
        assert(v@.take(v@.len() as int) =~= v@);
    }
    snap
}

/// The text of the details of a task.
pub open spec fn details_text(d: Details) -> Seq<char> {
    match d {
        Details::DocumentAdditionOrUpdate { received_documents, indexed_documents } => {
            "{ received_documents: "@ + decimal_text(received_documents as nat)
                + ", indexed_documents: "@ + opt_decimal_text(indexed_documents) + " }"@
        },
        Details::SettingsUpdate { settings } => "{ settings: "@ + settings@ + " }"@,
        Details::IndexInfo { primary_key } => "{ primary_key: "@ + opt_debug_text(primary_key)
            + " }"@,
        Details::DocumentDeletion { provided_ids, deleted_documents } => {
            "{ received_document_ids: "@ + decimal_text(provided_ids as nat)
                + ", deleted_documents: "@ + opt_decimal_text(deleted_documents) + " }"@
        },
        Details::DocumentDeletionByFilter { original_filter, deleted_documents } => {
            "{ original_filter: "@ + original_filter@ + ", deleted_documents: "@
                + opt_decimal_text(deleted_documents) + " }"@
        },
        Details::ClearAll { deleted_documents } => "{ deleted_documents: "@ + opt_decimal_text(
            deleted_documents,
        ) + " }"@,
        Details::TaskCancelation { matched_tasks, canceled_tasks, original_filter } => {
            "{ matched_tasks: "@ + decimal_text(matched_tasks as nat) + ", canceled_tasks: "@
                + opt_decimal_text(canceled_tasks) + ", original_filter: "@ + debug_text(
                original_filter@,
            ) + " }"@
        },
        Details::TaskDeletion { matched_tasks, deleted_tasks, original_filter } => {
            "{ matched_tasks: "@ + decimal_text(matched_tasks as nat) + ", deleted_tasks: "@
                + opt_decimal_text(deleted_tasks) + ", original_filter: "@ + debug_text(
                original_filter@,
            ) + " }"@
        },
        Details::Dump { dump_uid } => "{ dump_uid: "@ + opt_debug_text(dump_uid) + " }"@,
        Details::IndexSwap { swaps } => "{ swaps: ["@ + swaps_text(swaps@) + "] }"@,
    }
}

/// The text of the details of a task.
pub fn snapshot_details(d: &Details) -> (snap: String)
    ensures
        snap@ == details_text(*d),
{
    match d {
        Details::DocumentAdditionOrUpdate { received_documents, indexed_documents } => {
            let mut snap = "{ received_documents: ".to_owned();
            push_decimal(&mut snap, *received_documents);
            snap.append(", indexed_documents: ");
            push_opt_decimal(&mut snap, *indexed_documents);
            snap.append(" }");
            snap
        },
        Details::SettingsUpdate { settings } => {
            let mut snap = "{ settings: ".to_owned();
            snap.append(settings.as_str());
            snap.append(" }");
            snap
        },
        Details::IndexInfo { primary_key } => {
            let mut snap = "{ primary_key: ".to_owned();
            push_opt_debug(&mut snap, primary_key);
            snap.append(" }");
            snap
        },
        Details::DocumentDeletion { provided_ids, deleted_documents } => {
            let mut snap = "{ received_document_ids: ".to_owned();
            push_decimal(&mut snap, *provided_ids as u64);
            snap.append(", deleted_documents: ");
            push_opt_decimal(&mut snap, *deleted_documents);
            snap.append(" }");
            snap
        },
        Details::DocumentDeletionByFilter { original_filter, deleted_documents } => {
            let mut snap = "{ original_filter: ".to_owned();
            snap.append(original_filter.as_str());
            snap.append(", deleted_documents: ");
            push_opt_decimal(&mut snap, *deleted_documents);
            snap.append(" }");
            snap
        },
        Details::ClearAll { deleted_documents } => {
            let mut snap = "{ deleted_documents: ".to_owned();
            push_opt_decimal(&mut snap, *deleted_documents);
            snap.append(" }");
            snap
        },
        Details::TaskCancelation { matched_tasks, canceled_tasks, original_filter } => {
            let mut snap = "{ matched_tasks: ".to_owned();
            push_decimal(&mut snap, *matched_tasks);
            snap.append(", canceled_tasks: ");
            push_opt_decimal(&mut snap, *canceled_tasks);
            snap.append(", original_filter: ");
            push_debug(&mut snap, original_filter.as_str());
            snap.append(" }");
            snap
        },
        Details::TaskDeletion { matched_tasks, deleted_tasks, original_filter } => {
            let mut snap = "{ matched_tasks: ".to_owned();
            push_decimal(&mut snap, *matched_tasks);
            snap.append(", deleted_tasks: ");
            push_opt_decimal(&mut snap, *deleted_tasks);
            snap.append(", original_filter: ");
            push_debug(&mut snap, original_filter.as_str());
            snap.append(" }");
            snap
        },
        Details::Dump { dump_uid } => {
            let mut snap = "{ dump_uid: ".to_owned();
            push_opt_debug(&mut snap, dump_uid);
            snap.append(" }");
            snap
        },
        Details::IndexSwap { swaps } => {
            let mut snap = "{ swaps: [".to_owned();
            let list = snapshot_swaps(swaps);
            snap.append(list.as_str());
            snap.append("] }");
            snap
        },
    }
}

/// The name of a method of addition.
pub open spec fn method_text(m: IndexDocumentsMethod) -> Seq<char> {
    match m {
        IndexDocumentsMethod::ReplaceDocuments => "ReplaceDocuments"@,
        IndexDocumentsMethod::UpdateDocuments => "UpdateDocuments"@,
    }
}

/// Identifiers, separated by a comma and a space.
pub open spec fn spaced_ids_text(ids: Seq<u32>) -> Seq<char>
    decreases ids.len(),
{
    if ids.len() == 0 {
        Seq::<char>::empty()
    } else if ids.len() == 1 {
        decimal_text(ids[0] as nat)
    } else {
        spaced_ids_text(ids.drop_last()) + ", "@ + decimal_text(ids.last() as nat)
    }
}

/// A set of identifiers as it stands in the payload of a task, which is
/// how `roaring` writes a bitmap under `{:?}`: fewer than 16 identifiers
/// are listed, in increasing order; from 16 on their number is written
/// with the least and the greatest of them.
pub open spec fn payload_ids_text(s: Set<u32>) -> Seq<char> {
    let ids = ascending_seq(s);
    if ids.len() < 16 {
        "RoaringBitmap<["@ + spaced_ids_text(ids) + "]>"@
    } else {
        "RoaringBitmap<"@ + decimal_text(ids.len()) + " values between "@ + decimal_text(
            ids.first() as nat,
        ) + " and "@ + decimal_text(ids.last() as nat) + ">"@
    }
}

/// The text of a set of identifiers in the payload of a task.
fn snapshot_payload_ids(r: &RoaringBitmap) -> (snap: String)
    ensures
        snap@ == payload_ids_text(bitmap_set(*r)),
{
    let ids = bitmap_members(r);
    if ids.len() >= 16 {
        let mut snap = "RoaringBitmap<".to_owned();
        push_decimal(&mut snap, ids.len() as u64);
        snap.append(" values between ");
        push_decimal(&mut snap, ids[0] as u64);
        snap.append(" and ");
        push_decimal(&mut snap, ids[ids.len() - 1] as u64);
        snap.append(">");
        return snap;
    }
    let mut body = String::new();
    let mut i: usize = 0;
    proof {
        assert(ids@.take(0).len() == 0);
    }
    while i < ids.len()
        invariant
            i <= ids@.len(),
            body@ == spaced_ids_text(ids@.take(i as int)),
        decreases ids.len() - i,
    {
        proof {
            assert(ids@.take(i + 1).drop_last() =~= ids@.take(i as int));
            assert(ids@.take(i + 1).last() == ids@[i as int]);
            assert(ids@.take(i + 1)[0] == ids@[0]);
        }
        if i > 0 {
            body.append(", ");
            push_decimal(&mut body, ids[i] as u64);
        } else {
            push_decimal(&mut body, ids[i] as u64);
            assert(body@ =~= decimal_text(ids@[0] as nat));
        }
        i = i + 1;
    }
    proof {
        assert(ids@.take(ids@.len() as int) =~= ids@);
    }
    let mut snap = "RoaringBitmap<[".to_owned();
    snap.append(body.as_str());
    snap.append("]>");
    snap
}

/// The text of the operation of a task with its payload.
pub open spec fn kind_text(k: KindWithContent) -> Seq<char> {
    match k {
        KindWithContent::DocumentAdditionOrUpdate {
            index_uid,
            primary_key,
            method,
            content_file,
            documents_count,
            allow_index_creation,
        } => {
            "DocumentAdditionOrUpdate { index_uid: "@ + debug_text(index_uid@) + ", primary_key: "@
                + opt_debug_text(primary_key) + ", method: "@ + method_text(method)
                + ", content_file: "@ + uuid_text(content_file) + ", documents_count: "@
                + decimal_text(documents_count as nat) + ", allow_index_creation: "@ + bool_text(
                allow_index_creation,
            ) + " }"@
        },
        KindWithContent::DocumentDeletion { index_uid, documents_ids } => {
            "DocumentDeletion { index_uid: "@ + debug_text(index_uid@) + ", documents_ids: ["@
                + strings_text(documents_ids@) + "] }"@
        },
        KindWithContent::DocumentDeletionByFilter { index_uid, filter_expr } => {
            "DocumentDeletionByFilter { index_uid: "@ + debug_text(index_uid@) + ", filter_expr: "@
                + json_debug(value_json(filter_expr)) + " }"@
        },
        KindWithContent::DocumentClear { index_uid } => "DocumentClear { index_uid: "@
            + debug_text(index_uid@) + " }"@,
        KindWithContent::SettingsUpdate {
            index_uid,
            new_settings,
            is_deletion,
            allow_index_creation,
        } => {
            "SettingsUpdate { index_uid: "@ + debug_text(index_uid@) + ", new_settings: "@
                + new_settings@ + ", is_deletion: "@ + bool_text(is_deletion)
                + ", allow_index_creation: "@ + bool_text(allow_index_creation) + " }"@
        },
        KindWithContent::IndexDeletion { index_uid } => "IndexDeletion { index_uid: "@
            + debug_text(index_uid@) + " }"@,
        KindWithContent::IndexCreation { index_uid, primary_key } => {
            "IndexCreation { index_uid: "@ + debug_text(index_uid@) + ", primary_key: "@
                + opt_debug_text(primary_key) + " }"@
        },
        KindWithContent::IndexUpdate { index_uid, primary_key } => {
            "IndexUpdate { index_uid: "@ + debug_text(index_uid@) + ", primary_key: "@
                + opt_debug_text(primary_key) + " }"@
        },
        KindWithContent::IndexSwap { swaps } => "IndexSwap { swaps: ["@ + swaps_text(swaps@)
            + "] }"@,
        KindWithContent::TaskCancelation { query, tasks } => {
            "TaskCancelation { query: "@ + debug_text(query@) + ", tasks: "@ + payload_ids_text(
                bitmap_set(tasks),
            ) + " }"@
        },
        KindWithContent::TaskDeletion { query, tasks } => {
            "TaskDeletion { query: "@ + debug_text(query@) + ", tasks: "@ + payload_ids_text(
                bitmap_set(tasks),
            ) + " }"@
        },
        KindWithContent::DumpCreation => "DumpCreation"@,
        KindWithContent::SnapshotCreation => "SnapshotCreation"@,
    }
}

/// The text of the operation of a task with its payload.
pub fn snapshot_kind_with_content(k: &KindWithContent) -> (snap: String)
    ensures
        snap@ == kind_text(*k),
{
    match k {
        KindWithContent::DocumentAdditionOrUpdate {
            index_uid,
            primary_key,
            method,
            content_file,
            documents_count,
            allow_index_creation,
        } => {
            let mut snap = "DocumentAdditionOrUpdate { index_uid: ".to_owned();
            push_debug(&mut snap, index_uid.as_str());
            snap.append(", primary_key: ");
            push_opt_debug(&mut snap, primary_key);
            snap.append(", method: ");
            match method {
                IndexDocumentsMethod::ReplaceDocuments => {
                    snap.append("ReplaceDocuments");
                },
                IndexDocumentsMethod::UpdateDocuments => {
                    snap.append("UpdateDocuments");
                },
            }
            snap.append(", content_file: ");
            push_uuid(&mut snap, *content_file);
            snap.append(", documents_count: ");
            push_decimal(&mut snap, *documents_count);
            snap.append(", allow_index_creation: ");
            push_bool(&mut snap, *allow_index_creation);
            snap.append(" }");
            snap
        },
        KindWithContent::DocumentDeletion { index_uid, documents_ids } => {
            let mut snap = "DocumentDeletion { index_uid: ".to_owned();
            push_debug(&mut snap, index_uid.as_str());
            snap.append(", documents_ids: [");
            let list = snapshot_strings(documents_ids);
            snap.append(list.as_str());
            snap.append("] }");
            snap
        },
        KindWithContent::DocumentDeletionByFilter { index_uid, filter_expr } => {
            let mut snap = "DocumentDeletionByFilter { index_uid: ".to_owned();
            push_debug(&mut snap, index_uid.as_str());
            snap.append(", filter_expr: ");
            let filter = value_debug_text(filter_expr);
            snap.append(filter.as_str());
            snap.append(" }");
            snap
        },
        KindWithContent::DocumentClear { index_uid } => {
            let mut snap = "DocumentClear { index_uid: ".to_owned();
            push_debug(&mut snap, index_uid.as_str());
            snap.append(" }");
            snap
        },
        KindWithContent::SettingsUpdate {
            index_uid,
            new_settings,
            is_deletion,
            allow_index_creation,
        } => {
            let mut snap = "SettingsUpdate { index_uid: ".to_owned();
            push_debug(&mut snap, index_uid.as_str());
            snap.append(", new_settings: ");
            snap.append(new_settings.as_str());
            snap.append(", is_deletion: ");
            push_bool(&mut snap, *is_deletion);
            snap.append(", allow_index_creation: ");
            push_bool(&mut snap, *allow_index_creation);
            snap.append(" }");
            snap
        },
        KindWithContent::IndexDeletion { index_uid } => {
            let mut snap = "IndexDeletion { index_uid: ".to_owned();
            push_debug(&mut snap, index_uid.as_str());
            snap.append(" }");
            snap
        },
        KindWithContent::IndexCreation { index_uid, primary_key } => {
            let mut snap = "IndexCreation { index_uid: ".to_owned();
            push_debug(&mut snap, index_uid.as_str());
            snap.append(", primary_key: ");
            push_opt_debug(&mut snap, primary_key);
            snap.append(" }");
            snap
        },
        KindWithContent::IndexUpdate { index_uid, primary_key } => {
            let mut snap = "IndexUpdate { index_uid: ".to_owned();
            push_debug(&mut snap, index_uid.as_str());
            snap.append(", primary_key: ");
            push_opt_debug(&mut snap, primary_key);
            snap.append(" }");
            snap
        },
        KindWithContent::IndexSwap { swaps } => {
            let mut snap = "IndexSwap { swaps: [".to_owned();
            let list = snapshot_swaps(swaps);
            snap.append(list.as_str());
            snap.append("] }");
            snap
        },
        KindWithContent::TaskCancelation { query, tasks } => {
            let mut snap = "TaskCancelation { query: ".to_owned();
            push_debug(&mut snap, query.as_str());
            snap.append(", tasks: ");
            let ids = snapshot_payload_ids(tasks);
            snap.append(ids.as_str());
            snap.append(" }");
            snap
        },
        KindWithContent::TaskDeletion { query, tasks } => {
            let mut snap = "TaskDeletion { query: ".to_owned();
            push_debug(&mut snap, query.as_str());
            snap.append(", tasks: ");
            let ids = snapshot_payload_ids(tasks);
            snap.append(ids.as_str());
            snap.append(" }");
            snap
        },
        KindWithContent::DumpCreation => "DumpCreation".to_owned(),
        KindWithContent::SnapshotCreation => "SnapshotCreation".to_owned(),
    }
}

/// The text of a task record: its identifier and status, then the task
/// that canceled it, its error and its details where there are any, then
/// its operation. The dates are left out.
pub open spec fn task_text(t: Task) -> Seq<char> {
    let head = "{"@ + "uid: "@ + decimal_text(t.uid as nat) + ", "@ + "status: "@ + t.status.name()
        + ", "@;
    let with_canceler = match t.canceled_by {
        Some(c) => head + "canceled_by: "@ + decimal_text(c as nat) + ", "@,
        None => head,
    };
    let with_error = match t.error {
        Some(e) => with_canceler + "error: "@ + error_text(e) + ", "@,
        None => with_canceler,
    };
    let with_details = match t.details {
        Some(d) => with_error + "details: "@ + details_text(d) + ", "@,
        None => with_error,
    };
    with_details + "kind: "@ + kind_text(t.kind) + "}"@
}

/// The text of a task record.
pub fn snapshot_task(task: &Task) -> (snap: String)
    ensures
        snap@ == task_text(*task),
{
    let mut snap = "{".to_owned();
    snap.append("uid: ");
    push_decimal(&mut snap, task.uid as u64);
    snap.append(", ");
    snap.append("status: ");
    snap.append(task.status.as_str());
    snap.append(", ");
    match task.canceled_by {
        Some(c) => {
            snap.append("canceled_by: ");
            push_decimal(&mut snap, c as u64);
            snap.append(", ");
        },
        None => {},
    }
    match &task.error {
        Some(e) => {
            snap.append("error: ");
            let error = snapshot_error(e);
            snap.append(error.as_str());
            snap.append(", ");
        },
        None => {},
    }
    match &task.details {
        Some(d) => {
            snap.append("details: ");
            let details = snapshot_details(d);
            snap.append(details.as_str());
            snap.append(", ");
        },
        None => {},
    }
    snap.append("kind: ");
    let kind = snapshot_kind_with_content(&task.kind);
    snap.append(kind.as_str());
    snap.append("}");
    snap
}

/// The text of the table of records: one line for each task, in the order
/// of the identifiers.
pub open spec fn all_tasks_text(records: Seq<Task>) -> Seq<char>
    decreases records.len(),
{
    if records.len() == 0 {
        Seq::<char>::empty()
    } else {
        all_tasks_text(records.drop_last()) + decimal_text(records.last().uid as nat) + " "@
            + task_text(records.last()) + "\n"@
    }
}

/// The text of the table of records.
pub fn snapshot_all_tasks(store: &TaskStore) -> (snap: String)
    ensures
        snap@ == all_tasks_text(store@.records),
{
    let mut snap = String::new();
    let mut i: usize = 0;
    let ghost records = store@.records;
    proof {
        assert(records.take(0).len() == 0);
    }
    while i < store.len()
        invariant
            records == store@.records,
            i <= records.len(),
            snap@ == all_tasks_text(records.take(i as int)),
        decreases records.len() - i,
    {
        proof {
            assert(records.take(i + 1).drop_last() =~= records.take(i as int));
            assert(records.take(i + 1).last() == records[i as int]);
        }
        let task = store.task_at(i);
        push_decimal(&mut snap, task.uid as u64);
        snap.append(" ");
        let line = snapshot_task(task);
        snap.append(line.as_str());
        snap.append("\n");
        i = i + 1;
    }
    proof {
        assert(records.take(records.len() as int) =~= records);
    }
    snap
}

/// The counts of the fields, each as the quoted name of the field, a colon
/// and the count, separated by a comma and a space.
pub open spec fn fields_text(fields: Seq<(Seq<char>, u64)>) -> Seq<char>
    decreases fields.len(),
{
    if fields.len() == 0 {
        Seq::<char>::empty()
    } else if fields.len() == 1 {
        debug_text(fields[0].0) + ": "@ + decimal_text(fields[0].1 as nat)
    } else {
        fields_text(fields.drop_last()) + ", "@ + debug_text(fields.last().0) + ": "@
            + decimal_text(fields.last().1 as nat)
    }
}

/// The text of the counts of the fields of an index.
fn snapshot_fields(stats: &IndexStats) -> (snap: String)
    ensures
        snap@ == fields_text(stats@.field_distribution),
{
    let mut snap = String::new();
    let mut i: usize = 0;
    let ghost fields = stats@.field_distribution;
    let list = stats.fields();
    proof {
        assert(fields.take(0).len() == 0);
    }
    while i < list.len()
        invariant
            fields == stats@.field_distribution,
            list@.len() == fields.len(),
            forall|k: int|
                0 <= k < list@.len() ==> (#[trigger] list@[k]).0@ == fields[k].0 && list@[k].1
                    == fields[k].1,
            i <= fields.len(),
            snap@ == fields_text(fields.take(i as int)),
        decreases list.len() - i,
    {
        proof {
            assert(fields.take(i + 1).drop_last() =~= fields.take(i as int));
            assert(fields.take(i + 1).last() == fields[i as int]);
            assert(fields.take(i + 1)[0] == fields[0]);
            assert(list@[i as int].0@ == fields[i as int].0);
            assert(list@[0].0@ == fields[0].0);
        }
        if i > 0 {
            snap.append(", ");
            push_debug(&mut snap, list[i].0.as_str());
        } else {
            push_debug(&mut snap, list[i].0.as_str());
            assert(snap@ =~= debug_text(fields[0].0));
        }
        snap.append(": ");
        push_decimal(&mut snap, list[i].1);
        i = i + 1;
    }
    proof {
        assert(fields.take(fields.len() as int) =~= fields);
    }
    snap
}

/// The text of the registry of the indexes: one line for each index, in the
/// order of the names, with its number of documents and the counts of its
/// fields.
pub open spec fn index_mapper_text(entries: Seq<IndexEntryView>) -> Seq<char>
    decreases entries.len(),
{
    if entries.len() == 0 {
        Seq::<char>::empty()
    } else {
        index_mapper_text(entries.drop_last()) + entries.last().name
            + ": { number_of_documents: "@ + decimal_text(
            entries.last().stats.number_of_documents as nat,
        ) + ", field_distribution: {"@ + fields_text(entries.last().stats.field_distribution)
            + "} }\n"@
    }
}

/// The text of the registry of the indexes.
pub fn snapshot_index_mapper(mapper: &IndexMapper) -> (s: String)
    ensures
        s@ == index_mapper_text(mapper@.entries),
{
    let mut s = String::new();
    let mut i: usize = 0;
    let ghost entries = mapper@.entries;
    proof {
        assert(entries.take(0).len() == 0);
    }
    while i < mapper.len()
        invariant
            entries == mapper@.entries,
            i <= entries.len(),
            s@ == index_mapper_text(entries.take(i as int)),
        decreases entries.len() - i,
    {
        proof {
            assert(entries.take(i + 1).drop_last() =~= entries.take(i as int));
            assert(entries.take(i + 1).last() == entries[i as int]);
        }
        let entry = mapper.entry_at(i);
        s.append(entry.name.as_str());
        s.append(": { number_of_documents: ");
        push_decimal(&mut s, entry.stats.number_of_documents());
        s.append(", field_distribution: {");
        let fields = snapshot_fields(&entry.stats);
        s.append(fields.as_str());
        s.append("} }\n");
        i = i + 1;
    }
    proof {
        assert(entries.take(entries.len() as int) =~= entries);
    }
    s
}

/// The text of the references to the payloads: one line for each
/// identifier.
pub open spec fn file_store_text(uuids: Seq<u128>) -> Seq<char>
    decreases uuids.len(),
{
    if uuids.len() == 0 {
        Seq::<char>::empty()
    } else {
        file_store_text(uuids.drop_last()) + uuid_text(uuids.last()) + "\n"@
    }
}

/// The text of the references to the payloads, in increasing order.
pub fn snapshot_file_store(file_store: &FileStore) -> (snap: String)
    ensures
        snap@ == file_store_text(file_store@),
{
    let mut snap = String::new();
    let all_uuids = file_store.all_uuids();
    let mut i: usize = 0;
    proof {
        assert(all_uuids@.take(0).len() == 0);
    }
    while i < all_uuids.len()
        invariant
            i <= all_uuids@.len(),
            snap@ == file_store_text(all_uuids@.take(i as int)),
        decreases all_uuids.len() - i,
    {
        proof {
            assert(all_uuids@.take(i + 1).drop_last() =~= all_uuids@.take(i as int));
            assert(all_uuids@.take(i + 1).last() == all_uuids@[i as int]);
        }
        push_uuid(&mut snap, all_uuids[i]);
        snap.append("\n");
        i = i + 1;
    }
    proof {
        assert(all_uuids@.take(all_uuids@.len() as int) =~= all_uuids@);
    }
    snap
}

/// The line between two sections.
pub open spec fn rule_text() -> Seq<char> {
    "----------------------------------------------------------------------\n"@
}

/// The export of a scheduler: the autobatching flag, then one section each
/// for the processing set, the records, the five families of secondary
/// indices, the registry of the indexes and the references to the payloads.
pub open spec fn scheduler_text(v: SchedulerView) -> Seq<char> {
    "### Autobatching Enabled = "@ + bool_text(v.autobatching_enabled) + "\n"@
        + "### Processing Tasks:\n"@ + bitmap_text(v.processing) + "\n"@ + rule_text()
        + "### All Tasks:\n"@ + all_tasks_text(v.store.records) + rule_text() + "### Status:\n"@
        + table_text::<Status>(v.store.status) + rule_text() + "### Kind:\n"@ + table_text::<Kind>(
        v.store.kind,
    ) + rule_text() + "### Index Tasks:\n"@ + table_text::<String>(v.store.index_tasks)
        + rule_text() + "### Index Mapper:\n"@ + index_mapper_text(v.index_mapper.entries)
        + "\n"@ + rule_text() + "### Canceled By:\n"@ + table_text::<u32>(v.store.canceled_by)
        + "\n"@ + rule_text() + "### Enqueued At:\n"@ + table_text::<i128>(v.store.enqueued_at)
        + rule_text() + "### Started At:\n"@ + table_text::<i128>(v.store.started_at)
        + rule_text() + "### Finished At:\n"@ + table_text::<i128>(v.store.finished_at)
        + rule_text() + "### File Store:\n"@ + file_store_text(v.file_store) + "\n"@ + rule_text()
}

/// What every export is taken from. In a well-formed scheduler each task
/// of the record table is filed under its own status and under no other,
/// the statuses together file exactly the tasks of the record table, and so
/// do the kinds; the processing set holds the tasks whose status is
/// `Processing`. So the export never meets a state in which the records and
/// the secondary indices disagree.
pub proof fn lemma_exported_state_agrees(scheduler: &IndexScheduler)
    requires
        scheduler.wf(),
    ensures
        scheduler@.store.consistent(),
        forall|uid: u32, s: Status|
            scheduler@.store.contains(uid) ==> (#[trigger] bucket_of(
                scheduler@.store.status,
                s,
            ).contains(uid) <==> s == scheduler@.store.task(uid).status),
        forall|uid: u32, s: Status| #[trigger]
            bucket_of(scheduler@.store.status, s).contains(uid) ==> scheduler@.store.contains(uid),
        scheduler@.store.all_by_status() == scheduler@.store.uids(),
        scheduler@.store.all_by_kind() == scheduler@.store.uids(),
        scheduler@.processing == bucket_of(scheduler@.store.status, Status::Processing),
{
    scheduler.lemma_wf_inv();
    let v = scheduler@.store;
    v.lemma_status_closure();
    v.lemma_kind_closure();
    assert forall|uid: u32, s: Status|
        v.contains(uid) implies (#[trigger] bucket_of(v.status, s).contains(uid) <==> s == v.task(
            uid,
        ).status) by {
        v.lemma_filed_under_own_status(uid);
    }
    assert forall|uid: u32, s: Status| #[trigger]
        bucket_of(v.status, s).contains(uid) implies v.contains(uid) by {
        v.lemma_status_bucket(s);
    }
}

/// The export of a scheduler.
///
/// The scheduler has to be well formed: its records and its secondary
/// indices agree, as every operation of the scheduler leaves them. The text
/// depends on what the scheduler holds and on nothing else, so that the
/// same state is exported as the same text, byte for byte.
pub fn snapshot_index_scheduler(scheduler: &IndexScheduler) -> (snap: String)
    requires
        scheduler.wf(),
    ensures
        snap@ == scheduler_text(scheduler@),
{
    let store = scheduler.store();
    let mut snap = "### Autobatching Enabled = ".to_owned();
    push_bool(&mut snap, scheduler.autobatching_enabled());
    snap.append("\n");
    snap.append("### Processing Tasks:\n");
    let processing = snapshot_bitmap(scheduler.processing_tasks().ids());
    snap.append(processing.as_str());
    snap.append("\n");
    snap.append("----------------------------------------------------------------------\n");

    snap.append("### All Tasks:\n");
    let all_tasks = snapshot_all_tasks(store);
    snap.append(all_tasks.as_str());
    snap.append("----------------------------------------------------------------------\n");

    snap.append("### Status:\n");
    let status = snapshot_status(store.status_table());
    snap.append(status.as_str());
    snap.append("----------------------------------------------------------------------\n");

    snap.append("### Kind:\n");
    let kind = snapshot_kind(store.kind_table());
    snap.append(kind.as_str());
    snap.append("----------------------------------------------------------------------\n");

    snap.append("### Index Tasks:\n");
    let index_tasks = snapshot_index_tasks(store.index_tasks_table());
    snap.append(index_tasks.as_str());
    snap.append("----------------------------------------------------------------------\n");

    snap.append("### Index Mapper:\n");
    let index_mapper = snapshot_index_mapper(scheduler.index_mapper());
    snap.append(index_mapper.as_str());
    snap.append("\n");
    snap.append("----------------------------------------------------------------------\n");

    snap.append("### Canceled By:\n");
    let canceled_by = snapshot_canceled_by(store.canceled_by_table());
    snap.append(canceled_by.as_str());
    snap.append("\n");
    snap.append("----------------------------------------------------------------------\n");

    snap.append("### Enqueued At:\n");
    let enqueued_at = snapshot_date_db(store.enqueued_at_table());
    snap.append(enqueued_at.as_str());
    snap.append("----------------------------------------------------------------------\n");

    snap.append("### Started At:\n");
    let started_at = snapshot_date_db(store.started_at_table());
    snap.append(started_at.as_str());
    snap.append("----------------------------------------------------------------------\n");

    snap.append("### Finished At:\n");
    let finished_at = snapshot_date_db(store.finished_at_table());
    snap.append(finished_at.as_str());
    snap.append("----------------------------------------------------------------------\n");

    snap.append("### File Store:\n");
    let file_store = snapshot_file_store(scheduler.file_store());
    snap.append(file_store.as_str());
    snap.append("\n");
    snap.append("----------------------------------------------------------------------\n");

    snap
}

/// Two schedulers that hold the same are exported as the same text,
/// however each of them is laid out in memory.
pub proof fn lemma_export_depends_on_state_alone(a: &IndexScheduler, b: &IndexScheduler)
    requires
        a@ == b@,
    ensures
        scheduler_text(a@) == scheduler_text(b@),
{
}

} // verus!
