//! The tree cache: nodes addressed by handles, the map from remote
//! identifiers to handles, and the durable table that mirrors both.

use std::collections::{HashMap, HashSet};
use vstd::prelude::*;
use vstd::hash_map::StringHashMap;
use vstd::string::*;
use rusqlite::Connection;
use crate::error::CacheError;
use crate::remote::{is_folder, is_folder_type, RemoteFile, RemoteFileView, DRIVE_FOLDER_TYPE};
use crate::store::{
    assigned_handle, changed_rows, execute, handle_of_rowid, landed, landed_spec,
    last_insert_rowid, select_rows, SqlValue, SqlValueView, StoredRow, StoredRowView, Written,
    BEGIN, COMMIT, CREATE_TABLE, INSERT_ENTRY, ROLLBACK, SELECT_ALL, UPDATE_CHILDREN,
    UPDATE_PHOTO_PATH,
};
use crate::text::{
    join_handles, join_handles_text, lemma_split_join, same_text, split_handles,
    split_handles_text, text_view,
};

verus! {

broadcast use vstd::std_specs::hash::group_hash_axioms;

/// Where the table is kept unless another place is named.
pub const DB_PATH: &'static str = "cache/index.db";

/// The handle written as the parent of the root.
pub const ROOT_PARENT: u32 = 1;

/// The mathematical value of an [`Entry`].
pub struct EntryView {
    pub name: Seq<char>,
    pub drive_id: Seq<char>,
    pub drive_type: Seq<char>,
    pub parent: u32,
    pub is_directory: bool,
    pub children: Option<Seq<u32>>,
    pub photo_path: Option<Seq<char>>,
}

/// A node: its display name, its remote identifier and type tag, the handle
/// of its parent, and what has been loaded for it so far. `children` and
/// `photo_path` are `None` until they have been loaded.
pub struct Entry {
    name: String,
    drive_id: String,
    pub drive_type: String,
    parent: u32,
    pub is_directory: bool,
    pub children: Option<Vec<u32>>,
    pub photo_path: Option<String>,
}

/// The view of an optional list of handles.
pub open spec fn handles_view(children: Option<Vec<u32>>) -> Option<Seq<u32>> {
    match children {
        Some(v) => Some(v@),
        None => None,
    }
}

impl View for Entry {
    type V = EntryView;

    closed spec fn view(&self) -> EntryView {
        EntryView {
            name: self.name@,
            drive_id: self.drive_id@,
            drive_type: self.drive_type@,
            parent: self.parent,
            is_directory: self.is_directory,
            children: handles_view(self.children),
            photo_path: text_view(self.photo_path),
        }
    }
}

impl EntryView {
    /// A node as it is when first seen: nothing loaded yet.
    pub open spec fn fresh(
        name: Seq<char>,
        drive_id: Seq<char>,
        drive_type: Seq<char>,
        parent: u32,
        is_directory: bool,
    ) -> EntryView {
        EntryView {
            name,
            drive_id,
            drive_type,
            parent,
            is_directory,
            children: None,
            photo_path: None,
        }
    }

    /// Whether no further remote call is needed for this node: a directory
    /// whose children are loaded, or a leaf whose content is loaded.
    pub open spec fn fully_loaded(self) -> bool {
        if self.is_directory {
            self.children is Some
        } else {
            self.photo_path is Some
        }
    }

    /// Whether the node is what its type tag says, and holds only what a
    /// node of its kind can hold: a directory has no content path, a leaf
    /// no children.
    pub open spec fn sound(self) -> bool {
        &&& self.is_directory == is_folder(self.drive_type)
        &&& self.is_directory ==> self.photo_path is None
        &&& !self.is_directory ==> self.children is None
    }

    /// This node with `children` recorded as its loaded children.
    pub open spec fn with_children(self, children: Seq<u32>) -> EntryView {
        EntryView { children: Some(children), ..self }
    }

    /// This node with its children unknown again.
    pub open spec fn without_children(self) -> EntryView {
        EntryView { children: None, ..self }
    }

    /// This node with `path` recorded as its loaded content.
    pub open spec fn with_photo_path(self, path: Seq<char>) -> EntryView {
        EntryView { photo_path: Some(path), ..self }
    }
}

impl Entry {
    /// Makes a node with nothing loaded.
    pub fn new(
        name: String,
        drive_id: String,
        drive_type: String,
        parent: u32,
        is_directory: bool,
    ) -> (e: Entry)
        ensures
            e@ == EntryView::fresh(name@, drive_id@, drive_type@, parent, is_directory),
    {
        Entry { name, drive_id, drive_type, parent, is_directory, children: None, photo_path: None }
    }
}

/// The children that the text of a children column stands for: the handles
/// written in it, where the text is the written form of a list of handles.
/// Any other text stands for no list: the children are not loaded.
pub open spec fn stored_children(text: Seq<char>) -> Option<Seq<u32>> {
    if join_handles(split_handles(text)) == text {
        Some(split_handles(text))
    } else {
        None
    }
}

/// The node that a row of the durable table stands for. Of the two
/// nullable columns only the one that belongs to the kind of the node is
/// read: the children of a directory, the content path of a leaf. A
/// column without a text, or a children column whose text is no list of
/// handles, means "not loaded".
pub open spec fn decode_row(row: StoredRowView) -> EntryView {
    EntryView {
        name: row.name,
        drive_id: row.drive_id,
        drive_type: row.drive_type,
        parent: row.parent,
        is_directory: row.is_directory,
        children: if row.is_directory {
            match row.children {
                Some(t) => stored_children(t),
                None => None,
            }
        } else {
            None
        },
        photo_path: if row.is_directory {
            None
        } else {
            row.photo_path
        },
    }
}

/// The row that the durable table holds for the node `e` under the handle
/// `id`, once every change of the node has been written through.
pub open spec fn encode_row(id: u32, e: EntryView) -> StoredRowView {
    StoredRowView {
        id,
        name: e.name,
        drive_id: e.drive_id,
        drive_type: e.drive_type,
        parent: e.parent,
        is_directory: e.is_directory,
        children: match e.children {
            Some(hs) => Some(join_handles(hs)),
            None => None,
        },
        photo_path: e.photo_path,
    }
}

/// A node that was written through is read back as it was: the same name,
/// remote identifier, type tag and parent, the same children in the same
/// order, the same content path.
pub proof fn lemma_row_round_trip(id: u32, e: EntryView)
    requires
        e.sound(),
    ensures
        decode_row(encode_row(id, e)) == e,
        encode_row(id, e).id == id,
{
    if e.children is Some {
        lemma_split_join(e.children->0);
    }
}

/// Reads the children written in the text of a children column.
pub fn read_children(text: &str) -> (children: Option<Vec<u32>>)
    ensures
        handles_view(children) == stored_children(text@),
{
    let hs = split_handles_text(text);
    if same_text(join_handles_text(&hs).as_str(), text) {
        Some(hs)
    } else {
        None
    }
}

/// Reads the node that a row stands for.
pub fn decode(row: &StoredRow) -> (e: Entry)
    ensures
        e@ == decode_row(row@),
{
    let mut e = Entry::new(
        row.name.clone(),
        row.drive_id.clone(),
        row.drive_type.clone(),
        row.parent,
        row.is_directory,
    );
    if row.is_directory {
        e.children =
        match &row.children {
            Some(t) => read_children(t.as_str()),
            None => None,
        };
    } else {
        e.photo_path =
        match &row.photo_path {
            Some(p) => Some(p.clone()),
            None => None,
        };
    }
    e
}

/// The rows of a table, each by its view.
pub open spec fn rows_view(rows: Seq<StoredRow>) -> Seq<StoredRowView> {
    Seq::new(rows.len(), |i: int| rows[i]@)
}

/// Whether a table can stand for a tree: no handle and no remote
/// identifier occurs in two rows, and the directory flag of every row is
/// what its type tag says.
pub open spec fn rows_coherent(rows: Seq<StoredRowView>) -> bool {
    &&& forall|i: int, j: int|
        #![trigger rows[i], rows[j]]
        0 <= i < j < rows.len() ==> rows[i].id != rows[j].id && rows[i].drive_id
            != rows[j].drive_id
    &&& forall|i: int|
        0 <= i < rows.len() ==> (#[trigger] rows[i]).is_directory == is_folder(rows[i].drive_type)
}

/// Whether a tree holds exactly the nodes of a table: each row under its
/// handle, and nothing else.
pub open spec fn mirrors(entries: Map<u32, EntryView>, rows: Seq<StoredRowView>) -> bool {
    &&& forall|i: int|
        0 <= i < rows.len() ==> entries.contains_key((#[trigger] rows[i]).id)
            && entries[rows[i].id] == decode_row(rows[i])
    &&& forall|h: u32| #[trigger]
        entries.contains_key(h) ==> exists|i: int|
            0 <= i < rows.len() && (#[trigger] rows[i]).id == h
}

/// The views of a list of bound values.
pub open spec fn values_view(values: Seq<SqlValue>) -> Seq<SqlValueView> {
    Seq::new(values.len(), |i: int| values[i]@)
}

/// What is bound to the statement that appends a node: name, remote
/// identifier, type tag, parent, and the directory flag as 1 or 0.
pub open spec fn insert_values(e: EntryView) -> Seq<SqlValueView> {
    seq![
        SqlValueView::Text(e.name),
        SqlValueView::Text(e.drive_id),
        SqlValueView::Text(e.drive_type),
        SqlValueView::Integer(e.parent as int),
        SqlValueView::Integer(if e.is_directory { 1int } else { 0int }),
    ]
}

/// What is bound to a statement that overwrites one text column of the row
/// `id`: the text, then the handle.
pub open spec fn update_values(text: Seq<char>, id: u32) -> Seq<SqlValueView> {
    seq![SqlValueView::Text(text), SqlValueView::Integer(id as int)]
}

/// The statement that appends the node `e`.
pub open spec fn insert_statement(e: EntryView) -> Written {
    Written { sql: INSERT_ENTRY@, values: insert_values(e) }
}

/// The statement that writes `hs` as the children of the row `id`.
pub open spec fn children_statement(hs: Seq<u32>, id: u32) -> Written {
    Written { sql: UPDATE_CHILDREN@, values: update_values(join_handles(hs), id) }
}

/// The statement that writes `path` as the content path of the row `id`.
pub open spec fn photo_statement(path: Seq<char>, id: u32) -> Written {
    Written { sql: UPDATE_PHOTO_PATH@, values: update_values(path, id) }
}

/// A statement to which nothing is bound.
pub open spec fn plain_statement(sql: Seq<char>) -> Written {
    Written { sql, values: Seq::empty() }
}

/// Whether `later` is `earlier` with more statements after it.
pub open spec fn extends(earlier: Seq<Written>, later: Seq<Written>) -> bool {
    earlier.len() <= later.len() && later.subrange(0, earlier.len() as int) == earlier
}

/// A record that is extended stays extended when one more statement is
/// written.
pub proof fn lemma_extends_push(earlier: Seq<Written>, later: Seq<Written>, w: Written)
    requires
        extends(earlier, later),
    ensures
        extends(earlier, later.push(w)),
{
    assert(later.push(w).subrange(0, earlier.len() as int) =~= later.subrange(
        0,
        earlier.len() as int,
    ));
}

/// Whether `h` lies above every handle in use.
pub open spec fn above_all(entries: Map<u32, EntryView>, h: u32) -> bool {
    forall|k: u32| #[trigger] entries.contains_key(k) ==> k < h
}

/// The children text that the tree writes is read back as the children it
/// was written for.
pub proof fn lemma_written_children_read_back(hs: Seq<u32>)
    ensures
        stored_children(join_handles(hs)) == Some(hs),
{
    lemma_split_join(hs);
}

/// Binds the columns of a new node.
pub fn insert_params(e: &Entry) -> (params: Vec<SqlValue>)
    ensures
        values_view(params@) == insert_values(e@),
{
    let mut params: Vec<SqlValue> = Vec::new();
    params.push(SqlValue::Text(e.name.clone()));
    params.push(SqlValue::Text(e.drive_id.clone()));
    params.push(SqlValue::Text(e.drive_type.clone()));
    params.push(SqlValue::Integer(e.parent as i64));
    params.push(SqlValue::Integer(if e.is_directory { 1 } else { 0 }));
    params
}

/// Binds a text and the handle of the row that is to hold it.
pub fn update_params(text: &str, id: u32) -> (params: Vec<SqlValue>)
    ensures
        values_view(params@) == update_values(text@, id),
{
    let mut params: Vec<SqlValue> = Vec::new();
    params.push(SqlValue::Text(String::from_str(text)));
    params.push(SqlValue::Integer(id as i64));
    params
}

/// A copy of a list of handles.
fn copy_handles(hs: &Vec<u32>) -> (copy: Vec<u32>)
    ensures
        copy@ == hs@,
{
    let mut copy: Vec<u32> = Vec::new();
    let mut i: usize = 0;
    while i < hs.len()
        invariant
            i <= hs.len(),
            copy@ == hs@.take(i as int),
        decreases hs.len() - i,
    {
        copy.push(hs[i]);
        i = i + 1;
    }
    copy
}

/// Whether the two maps of a tree agree: every node is found under its own
/// remote identifier, every remote identifier leads to the node that bears
/// it, and every node is sound.
pub open spec fn coherent(entries: Map<u32, EntryView>, ids: Map<Seq<char>, u32>) -> bool {
    &&& forall|h: u32| #[trigger]
        entries.contains_key(h) ==> ids.contains_key(entries[h].drive_id)
            && ids[entries[h].drive_id] == h
    &&& forall|r: Seq<char>| #[trigger]
        ids.contains_key(r) ==> entries.contains_key(ids[r]) && entries[ids[r]].drive_id == r
    &&& forall|h: u32| #[trigger] entries.contains_key(h) ==> entries[h].sound()
}

/// The node made for a file that is listed under the directory `parent`:
/// nothing loaded, and a directory exactly if its type tag is that of a
/// folder.
pub open spec fn child_entry(file: RemoteFileView, parent: u32) -> EntryView {
    EntryView::fresh(file.name, file.remote_id, file.kind, parent, is_folder(file.kind))
}

/// The views of a listing.
pub open spec fn files_view(files: Seq<RemoteFile>) -> Seq<RemoteFileView> {
    Seq::new(files.len(), |i: int| files[i]@)
}

/// Whether `h` is one of the first `n` handles of `hs`.
pub open spec fn listed(hs: Seq<u32>, n: int, h: u32) -> bool {
    exists|j: int| 0 <= j < n && #[trigger] hs[j] == h
}

/// Whether a tree has grown out of another by the nodes `created` and by
/// nothing else: every earlier node and every earlier remote identifier
/// is as it was, and the nodes that are new are those of `created`, each
/// named once.
pub open spec fn grown(
    entries0: Map<u32, EntryView>,
    ids0: Map<Seq<char>, u32>,
    entries: Map<u32, EntryView>,
    ids: Map<Seq<char>, u32>,
    created: Seq<u32>,
) -> bool {
    &&& forall|h: u32| #[trigger]
        entries0.contains_key(h) ==> entries.contains_key(h) && entries[h] == entries0[h]
    &&& forall|r: Seq<char>| #[trigger]
        ids0.contains_key(r) ==> ids.contains_key(r) && ids[r] == ids0[r]
    &&& forall|h: u32|
        #[trigger] entries.contains_key(h) && !entries0.contains_key(h) ==> listed(
            created,
            created.len() as int,
            h,
        )
    &&& forall|j: int|
        0 <= j < created.len() ==> entries.contains_key(#[trigger] created[j])
            && !entries0.contains_key(created[j])
    &&& forall|j: int, k: int|
        0 <= j < k < created.len() ==> #[trigger] created[j] != #[trigger] created[k]
}

/// The handles of the files of a listing, file by file.
pub open spec fn file_handles(files: Seq<RemoteFileView>, ids: Map<Seq<char>, u32>) -> Seq<u32> {
    Seq::new(files.len(), |i: int| ids[files[i].remote_id])
}

/// A list of handles without its repetitions: each handle once, at the
/// place where it first occurs.
pub open spec fn first_occurrences(hs: Seq<u32>) -> Seq<u32>
    decreases hs.len(),
{
    if hs.len() == 0 {
        Seq::empty()
    } else {
        let init = first_occurrences(hs.drop_last());
        if init.contains(hs.last()) {
            init
        } else {
            init.push(hs.last())
        }
    }
}

/// A list without its repetitions names no handle twice, and names exactly
/// the handles of the list.
pub proof fn lemma_first_occurrences(hs: Seq<u32>)
    ensures
        first_occurrences(hs).no_duplicates(),
        forall|h: u32| first_occurrences(hs).contains(h) <==> hs.contains(h),
    decreases hs.len(),
{
    if hs.len() > 0 {
        let init = first_occurrences(hs.drop_last());
        let out = first_occurrences(hs);
        lemma_first_occurrences(hs.drop_last());
        assert forall|h: u32| out.contains(h) <==> hs.contains(h) by {
            if hs.contains(h) {
                let i = choose|i: int| 0 <= i < hs.len() && hs[i] == h;
                if i < hs.len() - 1 {
                    assert(hs.drop_last()[i] == h);
                    assert(hs.drop_last().contains(h));
                    assert(init.contains(h));
                    let j = choose|j: int| 0 <= j < init.len() && init[j] == h;
                    assert(out[j] == h);
                } else if init.contains(h) {
                    let j = choose|j: int| 0 <= j < init.len() && init[j] == h;
                    assert(out[j] == h);
                } else {
                    assert(out[init.len() as int] == h);
                }
            }
            if out.contains(h) {
                let j = choose|j: int| 0 <= j < out.len() && out[j] == h;
                if j < init.len() {
                    assert(init[j] == h);
                    assert(init.contains(h));
                    assert(hs.drop_last().contains(h));
                    let i = choose|i: int|
                        0 <= i < hs.drop_last().len() && hs.drop_last()[i] == h;
                    assert(hs[i] == h);
                } else {
                    assert(hs[hs.len() - 1] == h);
                }
            }
        }
        assert(out.no_duplicates()) by {
            assert forall|j: int, k: int| 0 <= j < out.len() && 0 <= k < out.len() && j
                != k implies out[j] != out[k] by {
                if j < init.len() && k < init.len() {
                    assert(init[j] != init[k]);
                } else if j < init.len() {
                    assert(init.contains(init[j]));
                } else if k < init.len() {
                    assert(init.contains(init[k]));
                }
            }
        }
    }
}

/// What recording a listing does to a tree. Each listed file has a handle:
/// the one that its remote identifier already had, or that of a new node
/// made under `parent` for the first file that bears the identifier; the
/// handle of a new node lies above every handle that was in use. The
/// directory `parent` has these handles as its loaded children, each
/// handle once, in the order in which the listing first names them.
/// Nothing else changes.
pub open spec fn children_recorded(
    entries0: Map<u32, EntryView>,
    ids0: Map<Seq<char>, u32>,
    entries: Map<u32, EntryView>,
    ids: Map<Seq<char>, u32>,
    parent: u32,
    files: Seq<RemoteFileView>,
    hs: Seq<u32>,
) -> bool {
    &&& entries0.contains_key(parent)
    &&& entries0[parent].is_directory
    &&& forall|i: int| 0 <= i < files.len() ==> ids.contains_key((#[trigger] files[i]).remote_id)
    &&& hs == first_occurrences(file_handles(files, ids))
    &&& forall|j: int, k: int| 0 <= j < k < hs.len() ==> #[trigger] hs[j] != #[trigger] hs[k]
    &&& forall|i: int|
        0 <= i < files.len() ==> hs.contains(ids[(#[trigger] files[i]).remote_id])
    &&& forall|j: int|
        0 <= j < hs.len() ==> exists|i: int|
            0 <= i < files.len() && ids[(#[trigger] files[i]).remote_id] == #[trigger] hs[j]
    &&& forall|r: Seq<char>| #[trigger]
        ids0.contains_key(r) ==> ids.contains_key(r) && ids[r] == ids0[r]
    &&& entries.contains_key(parent)
    &&& entries[parent] == entries0[parent].with_children(hs)
    &&& forall|h: u32|
        #[trigger] entries0.contains_key(h) && h != parent ==> entries.contains_key(h)
            && entries[h] == entries0[h]
    &&& forall|h: u32|
        #[trigger] entries.contains_key(h) && !entries0.contains_key(h) ==> exists|i: int|
            first_bearer(files, i) && ids[(#[trigger] files[i]).remote_id] == h && entries[h]
                == child_entry(files[i], parent)
    &&& forall|h: u32|
        #[trigger] entries.contains_key(h) && !entries0.contains_key(h) ==> above_all(entries0, h)
}

/// Whether the file at `i` is the first of a listing to bear its remote
/// identifier.
pub open spec fn first_bearer(files: Seq<RemoteFileView>, i: int) -> bool {
    &&& 0 <= i < files.len()
    &&& forall|l: int| 0 <= l < i ==> (#[trigger] files[l]).remote_id != files[i].remote_id
}

/// The statements that append the new nodes of the first `n` files of a
/// listing: one for each file whose remote identifier the tree did not
/// know and that is the first of the listing to bear it, in the order of
/// the listing.
pub open spec fn listing_inserts(
    files: Seq<RemoteFileView>,
    n: nat,
    ids0: Map<Seq<char>, u32>,
    parent: u32,
) -> Seq<Written>
    decreases n,
{
    if n == 0 {
        Seq::empty()
    } else {
        let init = listing_inserts(files, (n - 1) as nat, ids0, parent);
        if !ids0.contains_key(files[n - 1].remote_id) && first_bearer(files, n - 1) {
            init.push(insert_statement(child_entry(files[n - 1], parent)))
        } else {
            init
        }
    }
}

/// The statements by which a listing is recorded: the transaction is
/// opened, the new nodes are appended, the children `hs` are written to
/// the row of `parent`, and the transaction is committed.
pub open spec fn listing_statements(
    files: Seq<RemoteFileView>,
    ids0: Map<Seq<char>, u32>,
    parent: u32,
    hs: Seq<u32>,
) -> Seq<Written> {
    seq![plain_statement(BEGIN@)] + listing_inserts(files, files.len(), ids0, parent) + seq![
        children_statement(hs, parent),
        plain_statement(COMMIT@),
    ]
}

/// Distinct remote identifiers have distinct handles.
pub proof fn lemma_handles_injective(
    entries: Map<u32, EntryView>,
    ids: Map<Seq<char>, u32>,
    r1: Seq<char>,
    r2: Seq<char>,
)
    requires
        coherent(entries, ids),
        ids.contains_key(r1),
        ids.contains_key(r2),
        r1 != r2,
    ensures
        ids[r1] != ids[r2],
{
    assert(entries[ids[r1]].drive_id == r1);
    assert(entries[ids[r2]].drive_id == r2);
}

/// In a recorded listing, the handle of every file is among the children,
/// two files with distinct remote identifiers have distinct handles, two
/// files with the same remote identifier have the same handle, and a file
/// whose remote identifier was known before keeps the handle it had, under
/// whichever directory it is listed.
pub proof fn lemma_listing_handles(
    entries0: Map<u32, EntryView>,
    ids0: Map<Seq<char>, u32>,
    entries: Map<u32, EntryView>,
    ids: Map<Seq<char>, u32>,
    parent: u32,
    files: Seq<RemoteFileView>,
    hs: Seq<u32>,
    i: int,
    j: int,
)
    requires
        coherent(entries, ids),
        children_recorded(entries0, ids0, entries, ids, parent, files, hs),
        0 <= i < files.len(),
        0 <= j < files.len(),
    ensures
        hs.contains(ids[files[i].remote_id]),
        files[i].remote_id != files[j].remote_id ==> ids[files[i].remote_id]
            != ids[files[j].remote_id],
        files[i].remote_id == files[j].remote_id ==> ids[files[i].remote_id]
            == ids[files[j].remote_id],
        ids0.contains_key(files[i].remote_id) ==> ids[files[i].remote_id]
            == ids0[files[i].remote_id],
{
    assert(ids.contains_key(files[i].remote_id));
    assert(ids.contains_key(files[j].remote_id));
    if files[i].remote_id != files[j].remote_id {
        lemma_handles_injective(entries, ids, files[i].remote_id, files[j].remote_id);
    }
}

/// Where every listed file is new to the tree or was already a child of the
/// directory, every recorded child has the directory as its parent.
pub proof fn lemma_children_have_parent(
    entries0: Map<u32, EntryView>,
    ids0: Map<Seq<char>, u32>,
    entries: Map<u32, EntryView>,
    ids: Map<Seq<char>, u32>,
    parent: u32,
    files: Seq<RemoteFileView>,
    hs: Seq<u32>,
    j: int,
)
    requires
        coherent(entries0, ids0),
        coherent(entries, ids),
        children_recorded(entries0, ids0, entries, ids, parent, files, hs),
        forall|i: int|
            0 <= i < files.len() && ids0.contains_key((#[trigger] files[i]).remote_id)
                ==> entries0[ids0[files[i].remote_id]].parent == parent,
        0 <= j < hs.len(),
    ensures
        entries.contains_key(hs[j]),
        entries[hs[j]].parent == parent,
{
    let h = hs[j];
    let i = choose|i: int|
        0 <= i < files.len() && ids[(#[trigger] files[i]).remote_id] == #[trigger] hs[j];
    let r = files[i].remote_id;
    assert(ids.contains_key(r));
    assert(entries.contains_key(h) && entries[h].drive_id == r);
    if entries0.contains_key(h) {
        assert(entries0[h].drive_id == r);
        assert(ids0.contains_key(r) && ids0[r] == h);
    } else {
        let k = choose|k: int|
            first_bearer(files, k) && ids[(#[trigger] files[k]).remote_id] == h && entries[h]
                == child_entry(files[k], parent);
        assert(entries[h] == child_entry(files[k], parent));
    }
}

/// Every node of a tree is a directory exactly if its type tag is that of
/// a folder.
pub proof fn lemma_kind_consistency(entries: Map<u32, EntryView>, ids: Map<Seq<char>, u32>, h: u32)
    requires
        coherent(entries, ids),
        entries.contains_key(h),
    ensures
        entries[h].is_directory == is_folder(entries[h].drive_type),
{
}

/// Recording a listing leaves the kind of every node as it was, and gives
/// every new node the kind that its type tag says.
pub proof fn lemma_listing_keeps_kinds(
    entries0: Map<u32, EntryView>,
    ids0: Map<Seq<char>, u32>,
    entries: Map<u32, EntryView>,
    ids: Map<Seq<char>, u32>,
    parent: u32,
    files: Seq<RemoteFileView>,
    hs: Seq<u32>,
    h: u32,
)
    requires
        children_recorded(entries0, ids0, entries, ids, parent, files, hs),
        entries.contains_key(h),
    ensures
        entries0.contains_key(h) ==> entries[h].is_directory == entries0[h].is_directory
            && entries[h].drive_type == entries0[h].drive_type,
        !entries0.contains_key(h) ==> entries[h].is_directory == is_folder(entries[h].drive_type),
{
    if entries0.contains_key(h) {
        if h != parent {
            assert(entries[h] == entries0[h]);
        }
    } else {
        let i = choose|i: int|
            first_bearer(files, i) && ids[(#[trigger] files[i]).remote_id] == h && entries[h]
                == child_entry(files[i], parent);
        assert(entries[h] == child_entry(files[i], parent));
    }
}

/// Whether a table holds a tree: one row for each node, the row that the
/// node is written as, and no other row.
pub open spec fn table_of(rows: Seq<StoredRowView>, entries: Map<u32, EntryView>) -> bool {
    &&& forall|i: int|
        0 <= i < rows.len() ==> entries.contains_key((#[trigger] rows[i]).id) && rows[i]
            == encode_row(rows[i].id, entries[rows[i].id])
    &&& forall|h: u32| #[trigger]
        entries.contains_key(h) ==> exists|i: int| 0 <= i < rows.len() && (#[trigger] rows[i]).id == h
}

/// A tree that is read from the table of another tree is that tree: the
/// same handles, the same children, the same content paths.
pub proof fn lemma_reload_reproduces(
    entries0: Map<u32, EntryView>,
    ids0: Map<Seq<char>, u32>,
    rows: Seq<StoredRowView>,
    entries: Map<u32, EntryView>,
)
    requires
        coherent(entries0, ids0),
        table_of(rows, entries0),
        mirrors(entries, rows),
    ensures
        entries == entries0,
{
    assert forall|h: u32| entries.contains_key(h) <==> entries0.contains_key(h) by {
        if entries.contains_key(h) {
            let i = choose|i: int| 0 <= i < rows.len() && (#[trigger] rows[i]).id == h;
            assert(entries0.contains_key(rows[i].id));
        }
        if entries0.contains_key(h) {
            let i = choose|i: int| 0 <= i < rows.len() && (#[trigger] rows[i]).id == h;
            assert(entries.contains_key(rows[i].id));
        }
    }
    assert forall|h: u32| entries.contains_key(h) implies entries[h] == entries0[h] by {
        let i = choose|i: int| 0 <= i < rows.len() && (#[trigger] rows[i]).id == h;
        assert(entries[rows[i].id] == decode_row(rows[i]));
        assert(rows[i] == encode_row(rows[i].id, entries0[rows[i].id]));
        assert(entries0[h].sound());
        lemma_row_round_trip(h, entries0[h]);
    }
    assert(entries =~= entries0);
}

/// The table of a tree can stand for a tree.
pub proof fn lemma_table_is_coherent(
    entries0: Map<u32, EntryView>,
    ids0: Map<Seq<char>, u32>,
    rows: Seq<StoredRowView>,
)
    requires
        coherent(entries0, ids0),
        table_of(rows, entries0),
        forall|i: int, j: int|
            #![trigger rows[i], rows[j]]
            0 <= i < j < rows.len() ==> rows[i].id != rows[j].id,
    ensures
        rows_coherent(rows),
{
    assert forall|i: int, j: int|
        #![trigger rows[i], rows[j]]
        0 <= i < j < rows.len() implies rows[i].id != rows[j].id && rows[i].drive_id
        != rows[j].drive_id by {
        assert(entries0.contains_key(rows[i].id));
        assert(entries0.contains_key(rows[j].id));
        assert(ids0[entries0[rows[i].id].drive_id] == rows[i].id);
        assert(ids0[entries0[rows[j].id].drive_id] == rows[j].id);
    }
    assert forall|i: int| 0 <= i < rows.len() implies (#[trigger] rows[i]).is_directory
        == is_folder(rows[i].drive_type) by {
        assert(entries0.contains_key(rows[i].id));
        assert(entries0[rows[i].id].sound());
    }
}

/// A row with `text` written to its children column.
pub open spec fn row_with_children(row: StoredRowView, text: Seq<char>) -> StoredRowView {
    StoredRowView { children: Some(text), ..row }
}

/// A row with `path` written to its content path column.
pub open spec fn row_with_photo_path(row: StoredRowView, path: Seq<char>) -> StoredRowView {
    StoredRowView { photo_path: Some(path), ..row }
}

/// Whether a tree in memory is in step with a table: they hold the same
/// handles, and each node is what its row reads as, but that memory may
/// have forgotten the children of a directory.
pub open spec fn follows(entries: Map<u32, EntryView>, table: Map<u32, StoredRowView>) -> bool {
    &&& forall|h: u32| entries.contains_key(h) <==> table.contains_key(h)
    &&& forall|h: u32| #[trigger]
        entries.contains_key(h) ==> table[h].id == h && (entries[h] == decode_row(table[h])
            || entries[h] == decode_row(table[h]).without_children())
}

/// Whether `rows` are the rows of a table, each once under its handle.
pub open spec fn rows_of(rows: Seq<StoredRowView>, table: Map<u32, StoredRowView>) -> bool {
    &&& forall|i: int|
        0 <= i < rows.len() ==> table.contains_key((#[trigger] rows[i]).id) && table[rows[i].id]
            == rows[i]
    &&& forall|h: u32| #[trigger]
        table.contains_key(h) ==> exists|i: int| 0 <= i < rows.len() && (#[trigger] rows[i]).id == h
}

/// A tree that is read anew from the table it is in step with is the same
/// tree: the same handles, and every node as it was, with the same name,
/// remote identifier, type tag, parent, kind, children and content path.
/// Only a directory whose children memory had forgotten comes back with
/// the children that its row holds.
pub proof fn lemma_restart_reproduces(
    entries: Map<u32, EntryView>,
    table: Map<u32, StoredRowView>,
    rows: Seq<StoredRowView>,
    reopened: Map<u32, EntryView>,
)
    requires
        follows(entries, table),
        rows_of(rows, table),
        mirrors(reopened, rows),
    ensures
        forall|h: u32| reopened.contains_key(h) <==> entries.contains_key(h),
        forall|h: u32| #[trigger]
            entries.contains_key(h) ==> entries[h] == reopened[h] || entries[h]
                == reopened[h].without_children(),
        forall|h: u32| #[trigger]
            entries.contains_key(h) && entries[h].fully_loaded() ==> reopened[h] == entries[h],
{
    assert forall|h: u32| reopened.contains_key(h) <==> entries.contains_key(h) by {
        if reopened.contains_key(h) {
            let i = choose|i: int| 0 <= i < rows.len() && (#[trigger] rows[i]).id == h;
            assert(table.contains_key(rows[i].id));
        }
        if entries.contains_key(h) {
            assert(table.contains_key(h));
            let i = choose|i: int| 0 <= i < rows.len() && (#[trigger] rows[i]).id == h;
            assert(reopened.contains_key(rows[i].id));
        }
    }
    assert forall|h: u32| #[trigger] entries.contains_key(h) implies entries[h] == reopened[h]
        || entries[h] == reopened[h].without_children() by {
        assert(table.contains_key(h));
        let i = choose|i: int| 0 <= i < rows.len() && (#[trigger] rows[i]).id == h;
        assert(table[rows[i].id] == rows[i]);
        assert(reopened[rows[i].id] == decode_row(rows[i]));
    }
}

/// The root as it is made for an empty table.
pub open spec fn root_entry() -> EntryView {
    EntryView::fresh("root"@, "root"@, DRIVE_FOLDER_TYPE@, ROOT_PARENT, true)
}

/// The tree cache.
pub struct Index {
    compressed_ids: StringHashMap<u32>,
    entries: HashMap<u32, Entry>,
    db: Connection,
    next: u64,
    log: Ghost<Seq<Written>>,
    table: Ghost<Map<u32, StoredRowView>>,
}

impl Index {
    /// The nodes of the tree, by handle.
    pub closed spec fn view(&self) -> Map<u32, EntryView> {
        Map::new(|h: u32| self.entries@.contains_key(h), |h: u32| self.entries@[h]@)
    }

    /// The handle of each remote identifier that the tree knows.
    pub closed spec fn ids(&self) -> Map<Seq<char>, u32> {
        self.compressed_ids@
    }

    /// The lowest handle that a new node may get: it lies above every
    /// handle in use.
    pub closed spec fn next_handle(&self) -> nat {
        self.next as nat
    }

    /// Every statement that the tree has handed to its durable table, in
    /// the order in which it did.
    pub closed spec fn written(&self) -> Seq<Written> {
        self.log@
    }

    /// The rows of the durable table as the tree has read and written them:
    /// the rows it was built from, changed by every write that landed in
    /// the way the statement of that write says.
    pub closed spec fn durable(&self) -> Map<u32, StoredRowView> {
        self.table@
    }

    /// Whether memory is in step with the durable table. The tree is in
    /// step when it is opened, and every operation that writes through
    /// keeps it so; the operations that change memory only do not.
    pub open spec fn in_step(&self) -> bool {
        follows(self@, self.durable())
    }

    /// The invariant of the tree.
    pub open spec fn wf(&self) -> bool {
        &&& coherent(self@, self.ids())
        &&& self.next_handle() <= 0x1_0000_0000
        &&& forall|k: u32| #[trigger] self@.contains_key(k) ==> k < self.next_handle()
    }

    /// Hands a statement to the durable table and records that it did.
    /// Gives the count of changed rows, or `None` if the table reported an
    /// error.
    fn run(&mut self, sql: &str, params: &Vec<SqlValue>) -> (changed: Option<usize>)
        ensures
            final(self)@ == old(self)@,
            final(self).ids() == old(self).ids(),
            final(self).next_handle() == old(self).next_handle(),
            final(self).durable() == old(self).durable(),
            final(self).written() == old(self).written().push(
                Written { sql: sql@, values: values_view(params@) },
            ),
    {
        let changed = changed_rows(execute(&self.db, sql, params));
        self.log = Ghost(self.log@.push(Written { sql: sql@, values: values_view(params@) }));
        changed
    }

    /// Whether a node can be added: it is sound, nothing is loaded for it,
    /// and its remote identifier is not known yet.
    pub open spec fn admits(&self, e: EntryView) -> bool {
        &&& e.sound()
        &&& e.children is None
        &&& e.photo_path is None
        &&& !self.ids().contains_key(e.drive_id)
    }

    /// Tells whether `id` is the handle of a node.
    pub fn contains(&self, id: u32) -> (b: bool)
        ensures
            b == self@.contains_key(id),
    {
        self.entries.contains_key(&id)
    }

    /// The handle of the node that bears `remote_id`, if the tree knows it.
    pub fn resolve(&self, remote_id: &str) -> (h: Option<u32>)
        ensures
            h == if self.ids().contains_key(remote_id@) {
                Some(self.ids()[remote_id@])
            } else {
                None
            },
    {
        match self.compressed_ids.get(remote_id) {
            Some(h) => Some(*h),
            None => None,
        }
    }

    /// Inserts a node under the handle `id` in memory, without writing it to
    /// the durable table.
    pub fn reinsert_entry(&mut self, id: u32, e: Entry)
        requires
            old(self).wf(),
            !old(self)@.contains_key(id),
            !old(self).ids().contains_key(e@.drive_id),
            e@.sound(),
        ensures
            final(self).wf(),
            final(self)@ == old(self)@.insert(id, e@),
            final(self).ids() == old(self).ids().insert(e@.drive_id, id),
            final(self).next_handle() == if id >= old(self).next_handle() {
                (id + 1) as nat
            } else {
                old(self).next_handle()
            },
            final(self).written() == old(self).written(),
            final(self).durable() == old(self).durable(),
    {
        self.compressed_ids.insert(e.drive_id.clone(), id);
        self.entries.insert(id, e);
        if id as u64 >= self.next {
            self.next = id as u64 + 1;
        }
        assert(self@ =~= old(self)@.insert(id, e@));
    }

    /// Builds the tree that a table stands for. The connection `db` becomes
    /// the durable table of the tree. A table that cannot stand for a tree
    /// is refused.
    pub fn from_rows(db: Connection, rows: &Vec<StoredRow>) -> (r: Result<Index, CacheError>)
        ensures
            match r {
                Ok(ix) => rows_coherent(rows_view(rows@)) && ix.wf() && mirrors(
                    ix@,
                    rows_view(rows@),
                ) && ix.written() == Seq::<Written>::empty() && ix.in_step() && rows_of(
                    rows_view(rows@),
                    ix.durable(),
                ),
                Err(e) => e == CacheError::PersistenceFailure && !rows_coherent(rows_view(rows@)),
            },
    {
        let ghost rv = rows_view(rows@);
        let mut ix = Index {
            compressed_ids: StringHashMap::new(),
            entries: HashMap::new(),
            db,
            next: 0,
            log: Ghost(Seq::empty()),
            table: Ghost(Map::empty()),
        };
        let mut k: usize = 0;
        while k < rows.len()
            invariant
                k <= rows.len(),
                rv == rows_view(rows@),
                ix.wf(),
                ix.written() == Seq::<Written>::empty(),
                forall|i: int|
                    0 <= i < k ==> ix.durable().contains_key((#[trigger] rv[i]).id)
                        && ix.durable()[rv[i].id] == rv[i],
                forall|h: u32| ix.durable().contains_key(h) <==> ix@.contains_key(h),
                forall|i: int, j: int|
                    #![trigger rv[i], rv[j]]
                    0 <= i < j < k ==> rv[i].id != rv[j].id && rv[i].drive_id != rv[j].drive_id,
                forall|i: int| 0 <= i < k ==> (#[trigger] rv[i]).is_directory == is_folder(rv[i].drive_type),
                forall|i: int|
                    0 <= i < k ==> ix@.contains_key((#[trigger] rv[i]).id) && ix@[rv[i].id]
                        == decode_row(rv[i]),
                forall|h: u32| #[trigger]
                    ix@.contains_key(h) ==> exists|i: int| 0 <= i < k && (#[trigger] rv[i]).id == h,
            decreases rows.len() - k,
        {
            let row = &rows[k];
            assert(row@ == rv[k as int]);
            if ix.entries.contains_key(&row.id) {
                proof {
                    assert(ix@.contains_key(row.id));
                    let i = choose|i: int| 0 <= i < k && (#[trigger] rv[i]).id == row.id;
                    assert(rv[i].id == rv[k as int].id);
                }
                return Err(CacheError::PersistenceFailure);
            }
            if ix.compressed_ids.contains_key(row.drive_id.as_str()) {
                proof {
                    let h = ix.ids()[row@.drive_id];
                    let i = choose|i: int| 0 <= i < k && (#[trigger] rv[i]).id == h;
                    assert(rv[i].drive_id == rv[k as int].drive_id);
                }
                return Err(CacheError::PersistenceFailure);
            }
            if row.is_directory != is_folder_type(row.drive_type.as_str()) {
                return Err(CacheError::PersistenceFailure);
            }
            let e = decode(row);
            ix.reinsert_entry(row.id, e);
            let ghost table_before = ix.durable();
            ix.table = Ghost(ix.table@.insert(row.id, row@));
            proof {
                assert forall|i: int| 0 <= i < k + 1 implies ix.durable().contains_key(
                    (#[trigger] rv[i]).id,
                ) && ix.durable()[rv[i].id] == rv[i] by {
                    if i < k {
                        assert(table_before.contains_key(rv[i].id));
                    }
                }
            }
            k = k + 1;
        }
        proof {
            assert forall|h: u32| #[trigger] ix@.contains_key(h) implies ix.durable()[h].id == h
                && ix@[h] == decode_row(ix.durable()[h]) by {
                let i = choose|i: int| 0 <= i < k && (#[trigger] rv[i]).id == h;
                assert(ix.durable()[rv[i].id] == rv[i]);
            }
            assert forall|h: u32| #[trigger] ix.durable().contains_key(h) implies exists|i: int|
                0 <= i < rv.len() && (#[trigger] rv[i]).id == h by {
                assert(ix@.contains_key(h));
            }
        }
        Ok(ix)
    }

    /// Builds the tree that a table stands for, and gives it its root if
    /// the table is empty.
    pub fn load(db: Connection, rows: &Vec<StoredRow>) -> (r: Result<Index, CacheError>)
        ensures
            match r {
                Ok(ix) => {
                    &&& ix.wf()
                    &&& rows_coherent(rows_view(rows@))
                    &&& if rows.len() == 0 {
                        exists|h: u32|
                            ix@ == Map::<u32, EntryView>::empty().insert(h, root_entry())
                                && #[trigger] ix.ids() == Map::<Seq<char>, u32>::empty().insert(
                                "root"@,
                                h,
                            )
                    } else {
                        mirrors(ix@, rows_view(rows@))
                    }
                    &&& ix.written() == if rows.len() == 0 {
                        seq![insert_statement(root_entry())]
                    } else {
                        Seq::<Written>::empty()
                    }
                    &&& ix.in_step()
                },
                Err(e) => e == CacheError::PersistenceFailure && (rows.len() == 0
                    || !rows_coherent(rows_view(rows@))),
            },
    {
        let mut index = match Index::from_rows(db, rows) {
            Ok(index) => index,
            Err(e) => {
                return Err(e);
            },
        };
        if index.is_empty() {
            proof {
                if rows.len() > 0 {
                    assert(index@.contains_key(rows_view(rows@)[0].id));
                }
                assert(index@ =~= Map::<u32, EntryView>::empty());
            }
            if let Err(e) = index.create_root() {
                return Err(e);
            }
        } else {
            proof {
                if rows.len() == 0 {
                    let h = choose|h: u32| index@.contains_key(h);
                    assert(index@.contains_key(h));
                }
            }
        }
        Ok(index)
    }

    /// Reads the whole durable table behind `db` and builds its tree.
    fn restore_from_db(db: Connection) -> (r: Result<Index, CacheError>)
        ensures
            match r {
                Ok(ix) => ix.wf() && ix.in_step() && exists|h: u32| ix@.contains_key(h),
                Err(e) => e == CacheError::PersistenceFailure,
            },
    {
        let rows = match select_rows(&db, SELECT_ALL) {
            Ok(rows) => rows,
            Err(_) => {
                return Err(CacheError::PersistenceFailure);
            },
        };
        match Index::load(db, &rows) {
            Ok(ix) => {
                proof {
                    if rows.len() == 0 {
                        let h = choose|h: u32|
                            ix@ == Map::<u32, EntryView>::empty().insert(h, root_entry())
                                && #[trigger] ix.ids() == Map::<Seq<char>, u32>::empty().insert(
                                "root"@,
                                h,
                            );
                        assert(ix@.contains_key(h));
                    } else {
                        assert(ix@.contains_key(rows_view(rows@)[0].id));
                    }
                }
                Ok(ix)
            },
            Err(e) => Err(e),
        }
    }

    /// Opens the tree kept in the database at `path`: makes the table if
    /// it is missing, reads every row, and gives an empty table its root.
    pub fn open(path: &str) -> (r: Result<Index, CacheError>)
        ensures
            match r {
                Ok(ix) => ix.wf() && ix.in_step() && exists|h: u32| ix@.contains_key(h),
                Err(e) => e == CacheError::PersistenceFailure,
            },
    {
        let db = match crate::store::open(path) {
            Ok(db) => db,
            Err(_) => {
                return Err(CacheError::PersistenceFailure);
            },
        };
        let none: Vec<SqlValue> = Vec::new();
        if changed_rows(execute(&db, CREATE_TABLE, &none)).is_none() {
            return Err(CacheError::PersistenceFailure);
        }
        Index::restore_from_db(db)
    }

    /// Opens the tree kept at [`DB_PATH`].
    pub fn new() -> (r: Result<Index, CacheError>)
        ensures
            match r {
                Ok(ix) => ix.wf() && ix.in_step() && exists|h: u32| ix@.contains_key(h),
                Err(e) => e == CacheError::PersistenceFailure,
            },
    {
        Index::open(DB_PATH)
    }

    /// Tells whether the node `e` can be added.
    pub fn admissible(&self, e: &Entry) -> (b: bool)
        ensures
            b == self.admits(e@),
    {
        e.is_directory == is_folder_type(e.drive_type.as_str()) && e.children.is_none()
            && e.photo_path.is_none() && !self.compressed_ids.contains_key(e.drive_id.as_str())
    }

    /// Takes the answer of the durable table to the appending of the node
    /// `e`: the count of changed rows, and the row number the table gave.
    /// Where the write landed and the row number is a handle that lies
    /// above every handle in use, the node is kept under exactly that
    /// handle. Any other answer is a persistence failure, and nothing
    /// changes.
    pub fn adopt(&mut self, e: Entry, changed: Option<usize>, rowid: i64) -> (r: Result<
        u32,
        CacheError,
    >)
        requires
            old(self).wf(),
            old(self).admits(e@),
        ensures
            final(self).wf(),
            final(self).written() == old(self).written(),
            old(self).in_step() ==> final(self).in_step(),
            final(self).durable() == match r {
                Ok(h) => old(self).durable().insert(h, encode_row(h, e@)),
                Err(_) => old(self).durable(),
            },
            match r {
                Ok(h) => {
                    &&& landed_spec(changed)
                    &&& handle_of_rowid(rowid) == Some(h)
                    &&& h >= old(self).next_handle()
                    &&& above_all(old(self)@, h)
                    &&& final(self)@ == old(self)@.insert(h, e@)
                    &&& final(self).ids() == old(self).ids().insert(e@.drive_id, h)
                    &&& final(self).next_handle() == h + 1
                },
                Err(err) => {
                    &&& err == CacheError::PersistenceFailure
                    &&& final(self)@ == old(self)@
                    &&& final(self).ids() == old(self).ids()
                    &&& final(self).next_handle() == old(self).next_handle()
                    &&& !(landed_spec(changed) && handle_of_rowid(rowid) is Some
                        && handle_of_rowid(rowid)->0 >= old(self).next_handle())
                },
            },
    {
        if !landed(changed) {
            return Err(CacheError::PersistenceFailure);
        }
        match assigned_handle(rowid) {
            Some(h) => {
                if (h as u64) < self.next {
                    Err(CacheError::PersistenceFailure)
                } else {
                    let ghost row = encode_row(h, e@);
                    proof {
                        lemma_row_round_trip(h, e@);
                    }
                    self.reinsert_entry(h, e);
                    self.table = Ghost(self.table@.insert(h, row));
                    Ok(h)
                }
            },
            None => Err(CacheError::PersistenceFailure),
        }
    }

    /// Appends a node to the durable table and inserts it in memory under
    /// the handle that the table gave it, as [`Index::adopt`] says. A node
    /// that cannot be added is a programming error, and nothing is written.
    pub fn create_entry(&mut self, e: Entry) -> (r: Result<u32, CacheError>)
        requires
            old(self).wf(),
        ensures
            final(self).wf(),
            final(self).written() == if old(self).admits(e@) {
                old(self).written().push(insert_statement(e@))
            } else {
                old(self).written()
            },
            old(self).in_step() ==> final(self).in_step(),
            final(self).durable() == match r {
                Ok(h) => old(self).durable().insert(h, encode_row(h, e@)),
                Err(_) => old(self).durable(),
            },
            match r {
                Ok(h) => {
                    &&& old(self).admits(e@)
                    &&& h >= old(self).next_handle()
                    &&& above_all(old(self)@, h)
                    &&& !old(self)@.contains_key(h)
                    &&& final(self)@ == old(self)@.insert(h, e@)
                    &&& final(self).ids() == old(self).ids().insert(e@.drive_id, h)
                    &&& final(self).next_handle() == h + 1
                },
                Err(err) => {
                    &&& final(self)@ == old(self)@
                    &&& final(self).ids() == old(self).ids()
                    &&& final(self).next_handle() == old(self).next_handle()
                    &&& err == if old(self).admits(e@) {
                        CacheError::PersistenceFailure
                    } else {
                        CacheError::ProgrammingError
                    }
                },
            },
    {
        if !self.admissible(&e) {
            return Err(CacheError::ProgrammingError);
        }
        let params = insert_params(&e);
        let changed = self.run(INSERT_ENTRY, &params);
        let rowid = last_insert_rowid(&self.db);
        self.adopt(e, changed, rowid)
    }

    /// Gives the tree its root: a directory named `root` whose remote
    /// identifier is `root`.
    pub fn create_root(&mut self) -> (r: Result<u32, CacheError>)
        requires
            old(self).wf(),
        ensures
            final(self).wf(),
            final(self).written() == if old(self).ids().contains_key("root"@) {
                old(self).written()
            } else {
                old(self).written().push(insert_statement(root_entry()))
            },
            old(self).in_step() ==> final(self).in_step(),
            final(self).durable() == match r {
                Ok(h) => old(self).durable().insert(h, encode_row(h, root_entry())),
                Err(_) => old(self).durable(),
            },
            match r {
                Ok(h) => {
                    &&& !old(self).ids().contains_key("root"@)
                    &&& above_all(old(self)@, h)
                    &&& !old(self)@.contains_key(h)
                    &&& final(self)@ == old(self)@.insert(h, root_entry())
                    &&& final(self).ids() == old(self).ids().insert("root"@, h)
                    &&& final(self).next_handle() == h + 1
                },
                Err(err) => {
                    &&& final(self)@ == old(self)@
                    &&& final(self).ids() == old(self).ids()
                    &&& final(self).next_handle() == old(self).next_handle()
                    &&& err == if old(self).ids().contains_key("root"@) {
                        CacheError::ProgrammingError
                    } else {
                        CacheError::PersistenceFailure
                    }
                },
            },
    {
        let e = Entry::new(
            String::from_str("root"),
            String::from_str("root"),
            String::from_str(DRIVE_FOLDER_TYPE),
            ROOT_PARENT,
            true,
        );
        self.create_entry(e)
    }

    /// Finds the node that bears the remote identifier of `file`, or makes
    /// the node under the directory `parent_id`. Gives the handle, and
    /// whether the node was made.
    fn add_child(&mut self, parent_id: u32, file: &RemoteFile) -> (r: Result<
        (u32, bool),
        CacheError,
    >)
        requires
            old(self).wf(),
        ensures
            final(self).wf(),
            final(self).written() == if old(self).ids().contains_key(file@.remote_id) {
                old(self).written()
            } else {
                old(self).written().push(insert_statement(child_entry(file@, parent_id)))
            },
            old(self).in_step() ==> final(self).in_step(),
            match r {
                Ok((h, made)) => {
                    &&& made == !old(self).ids().contains_key(file@.remote_id)
                    &&& made ==> h >= old(self).next_handle() && final(self).next_handle() == h + 1
                    &&& !made ==> final(self).next_handle() == old(self).next_handle()
                    &&& final(self).ids().contains_key(file@.remote_id)
                    &&& final(self).ids()[file@.remote_id] == h
                    &&& if made {
                        &&& !old(self)@.contains_key(h)
                        &&& final(self)@ == old(self)@.insert(h, child_entry(file@, parent_id))
                        &&& final(self).ids() == old(self).ids().insert(file@.remote_id, h)
                    } else {
                        &&& final(self)@ == old(self)@
                        &&& final(self).ids() == old(self).ids()
                    }
                },
                Err(e) => {
                    &&& e == CacheError::PersistenceFailure
                    &&& !old(self).ids().contains_key(file@.remote_id)
                    &&& final(self)@ == old(self)@
                    &&& final(self).ids() == old(self).ids()
                    &&& final(self).next_handle() == old(self).next_handle()
                },
            },
    {
        match self.resolve(file.remote_id.as_str()) {
            Some(h) => Ok((h, false)),
            None => {
                let is_directory = is_folder_type(file.kind.as_str());
                let e = Entry::new(
                    file.name.clone(),
                    file.remote_id.clone(),
                    file.kind.clone(),
                    parent_id,
                    is_directory,
                );
                match self.create_entry(e) {
                    Ok(h) => Ok((h, true)),
                    Err(_) => Err(CacheError::PersistenceFailure),
                }
            },
        }
    }

    /// Takes the nodes `created` out of memory again, each with its remote
    /// identifier, and makes `floor` the lowest handle that a new node may
    /// get.
    fn forget(&mut self, created: &Vec<u32>, floor: u64)
        requires
            old(self).wf(),
            forall|j: int| 0 <= j < created.len() ==> old(self)@.contains_key(#[trigger] created[j]),
            forall|j: int, k: int|
                0 <= j < k < created.len() ==> #[trigger] created[j] != #[trigger] created[k],
            floor <= 0x1_0000_0000,
            forall|h: u32|
                #[trigger] old(self)@.contains_key(h) && !listed(created@, created.len() as int, h)
                    ==> h < floor,
        ensures
            final(self).wf(),
            final(self).next_handle() == floor,
            final(self).written() == old(self).written(),
            forall|h: u32|
                #![trigger final(self).durable().contains_key(h)]
                #![trigger old(self).durable().contains_key(h)]
                final(self).durable().contains_key(h) <==> old(self).durable().contains_key(h)
                    && !listed(created@, created.len() as int, h),
            forall|h: u32| #[trigger]
                final(self).durable().contains_key(h) ==> final(self).durable()[h] == old(
                    self,
                ).durable()[h],
            forall|h: u32|
                final(self)@.contains_key(h) <==> old(self)@.contains_key(h) && !listed(
                    created@,
                    created.len() as int,
                    h,
                ),
            forall|h: u32| #[trigger]
                final(self)@.contains_key(h) ==> final(self)@[h] == old(self)@[h],
            forall|r: Seq<char>|
                final(self).ids().contains_key(r) <==> old(self).ids().contains_key(r) && !listed(
                    created@,
                    created.len() as int,
                    old(self).ids()[r],
                ),
            forall|r: Seq<char>| #[trigger]
                final(self).ids().contains_key(r) ==> final(self).ids()[r] == old(self).ids()[r],
    {
        let ghost entries0 = self@;
        let ghost ids0 = self.ids();
        let mut k: usize = 0;
        while k < created.len()
            invariant
                k <= created.len(),
                self.wf(),
                self.written() == old(self).written(),
                forall|h: u32|
                    #![trigger self.durable().contains_key(h)]
                    #![trigger old(self).durable().contains_key(h)]
                    self.durable().contains_key(h) <==> old(self).durable().contains_key(h)
                        && !listed(created@, k as int, h),
                forall|h: u32| #[trigger]
                    self.durable().contains_key(h) ==> self.durable()[h] == old(self).durable()[h],
                floor <= 0x1_0000_0000,
                forall|h: u32|
                    #[trigger] entries0.contains_key(h) && !listed(
                        created@,
                        created.len() as int,
                        h,
                    ) ==> h < floor,
                coherent(entries0, ids0),
                forall|j: int| 0 <= j < created.len() ==> entries0.contains_key(#[trigger] created[j]),
                forall|j: int, l: int|
                    0 <= j < l < created.len() ==> #[trigger] created[j] != #[trigger] created[l],
                forall|h: u32|
                    self@.contains_key(h) <==> entries0.contains_key(h) && !listed(
                        created@,
                        k as int,
                        h,
                    ),
                forall|h: u32| #[trigger] self@.contains_key(h) ==> self@[h] == entries0[h],
                forall|r: Seq<char>|
                    self.ids().contains_key(r) <==> ids0.contains_key(r) && !listed(
                        created@,
                        k as int,
                        ids0[r],
                    ),
                forall|r: Seq<char>| #[trigger]
                    self.ids().contains_key(r) ==> self.ids()[r] == ids0[r],
            decreases created.len() - k,
        {
            let h = created[k];
            let ghost before = self@;
            proof {
                if listed(created@, k as int, h) {
                    let j = choose|j: int| 0 <= j < k && #[trigger] created@[j] == h;
                    assert(created[j] != created[k as int]);
                }
            }
            match self.entries.remove(&h) {
                Some(e) => {
                    self.compressed_ids.remove(e.drive_id.as_str());
                    proof {
                        assert(self@ =~= before.remove(h));
                    }
                },
                None => {},
            }
            let ghost table_before = self.durable();
            self.table = Ghost(self.table@.remove(h));
            proof {
                assert forall|h2: u32|
                    #![trigger self.durable().contains_key(h2)]
                    #![trigger old(self).durable().contains_key(h2)]
                    self.durable().contains_key(h2) <==> old(self).durable().contains_key(h2)
                        && !listed(created@, k + 1, h2) by {
                    assert(table_before.contains_key(h2) <==> old(self).durable().contains_key(h2)
                        && !listed(created@, k as int, h2));
                    if listed(created@, k + 1, h2) {
                        let j = choose|j: int| 0 <= j < k + 1 && #[trigger] created@[j] == h2;
                        if j < k {
                            assert(listed(created@, k as int, h2));
                        }
                    }
                    if listed(created@, k as int, h2) {
                        let j = choose|j: int| 0 <= j < k && #[trigger] created@[j] == h2;
                        assert(0 <= j < k + 1 && created@[j] == h2);
                    }
                    if h2 == h {
                        assert(created@[k as int] == h2);
                    }
                }
            }
            k = k + 1;
        }
        proof {
            assert forall|h: u32| #[trigger] self@.contains_key(h) implies h < floor by {
                assert(entries0.contains_key(h) && !listed(created@, created.len() as int, h));
            }
        }
        let ghost table_end = self.durable();
        self.next = floor;
        proof {
            assert(self.durable() == table_end);
            assert forall|h: u32|
                #![trigger self.durable().contains_key(h)]
                #![trigger old(self).durable().contains_key(h)]
                self.durable().contains_key(h) <==> old(self).durable().contains_key(h) && !listed(
                    created@,
                    created.len() as int,
                    h,
                ) by {
                assert(table_end.contains_key(h) <==> old(self).durable().contains_key(h)
                    && !listed(created@, k as int, h));
            }
            assert forall|h: u32| #[trigger] self.durable().contains_key(h) implies self.durable()[h]
                == old(self).durable()[h] by {
                assert(table_end.contains_key(h));
            }
        }
    }

    /// Takes the answers of the durable table to the last two writes of a
    /// listing: `updated` to the writing of the children `hs` to the row of
    /// `parent_id`, and `committed` to the commit. Where the update landed
    /// and the commit was taken, `hs` become the loaded children of the
    /// directory. With any other answers it is a persistence failure: the
    /// nodes `created` for the listing are taken out of memory again, and
    /// `floor` is again the lowest handle that a new node may get.
    pub fn settle_listing(
        &mut self,
        parent_id: u32,
        hs: Vec<u32>,
        created: &Vec<u32>,
        floor: u64,
        updated: Option<usize>,
        committed: Option<usize>,
    ) -> (r: Result<Vec<u32>, CacheError>)
        requires
            old(self).wf(),
            old(self)@.contains_key(parent_id),
            old(self)@[parent_id].is_directory,
            forall|j: int| 0 <= j < created.len() ==> old(self)@.contains_key(#[trigger] created[j]),
            forall|j: int, k: int|
                0 <= j < k < created.len() ==> #[trigger] created[j] != #[trigger] created[k],
            floor <= 0x1_0000_0000,
            forall|h: u32|
                #[trigger] old(self)@.contains_key(h) && !listed(created@, created.len() as int, h)
                    ==> h < floor,
        ensures
            final(self).wf(),
            final(self).written() == old(self).written(),
            r is Ok <==> landed_spec(updated) && committed is Some,
            old(self).in_step() ==> final(self).in_step(),
            match r {
                Ok(children) => {
                    &&& children@ == hs@
                    &&& final(self).durable() == old(self).durable().insert(
                        parent_id,
                        row_with_children(old(self).durable()[parent_id], join_handles(hs@)),
                    )
                    &&& final(self)@ == old(self)@.insert(
                        parent_id,
                        old(self)@[parent_id].with_children(hs@),
                    )
                    &&& final(self).ids() == old(self).ids()
                    &&& final(self).next_handle() == old(self).next_handle()
                },
                Err(e) => {
                    &&& e == CacheError::PersistenceFailure
                    &&& final(self).next_handle() == floor
                    &&& forall|h: u32|
                        final(self)@.contains_key(h) <==> old(self)@.contains_key(h) && !listed(
                            created@,
                            created.len() as int,
                            h,
                        )
                    &&& forall|h: u32| #[trigger]
                        final(self)@.contains_key(h) ==> final(self)@[h] == old(self)@[h]
                    &&& forall|r: Seq<char>|
                        final(self).ids().contains_key(r) <==> old(self).ids().contains_key(r)
                            && !listed(created@, created.len() as int, old(self).ids()[r])
                    &&& forall|r: Seq<char>| #[trigger]
                        final(self).ids().contains_key(r) ==> final(self).ids()[r] == old(
                            self,
                        ).ids()[r]
                    &&& forall|h: u32|
                        #![trigger final(self).durable().contains_key(h)]
                        #![trigger old(self).durable().contains_key(h)]
                        final(self).durable().contains_key(h) <==> old(self).durable().contains_key(
                            h,
                        ) && !listed(created@, created.len() as int, h)
                    &&& forall|h: u32| #[trigger]
                        final(self).durable().contains_key(h) ==> final(self).durable()[h] == old(
                            self,
                        ).durable()[h]
                },
            },
    {
        if landed(updated) && committed.is_some() {
            proof {
                lemma_written_children_read_back(hs@);
            }
            self.set_children(parent_id, copy_handles(&hs));
            self.table = Ghost(
                self.table@.insert(
                    parent_id,
                    row_with_children(self.table@[parent_id], join_handles(hs@)),
                ),
            );
            Ok(hs)
        } else {
            self.forget(created, floor);
            Err(CacheError::PersistenceFailure)
        }
    }

    /// Records the listing `files` of the directory `parent_id`: finds or
    /// makes a node for each file, then marks the directory as loaded with
    /// their handles, each once, in the durable table and in memory. All of
    /// it is done
    /// in one transaction: where any write fails, the transaction is rolled
    /// back and the tree is as it was. A listing for a leaf or for an
    /// unknown handle is a programming error. A second listing for the same
    /// directory replaces the first.
    pub fn add_children(&mut self, parent_id: u32, files: &Vec<RemoteFile>) -> (r: Result<
        Vec<u32>,
        CacheError,
    >)
        requires
            old(self).wf(),
        ensures
            final(self).wf(),
            old(self).in_step() ==> final(self).in_step(),
            match r {
                Ok(hs) => {
                    &&& children_recorded(
                        old(self)@,
                        old(self).ids(),
                        final(self)@,
                        final(self).ids(),
                        parent_id,
                        files_view(files@),
                        hs@,
                    )
                    &&& final(self).written() == old(self).written() + listing_statements(
                        files_view(files@),
                        old(self).ids(),
                        parent_id,
                        hs@,
                    )
                },
                Err(e) => {
                    &&& final(self)@ == old(self)@
                    &&& final(self).ids() == old(self).ids()
                    &&& final(self).next_handle() == old(self).next_handle()
                    &&& if old(self)@.contains_key(parent_id) && old(self)@[parent_id].is_directory {
                        e == CacheError::PersistenceFailure && extends(
                            old(self).written(),
                            final(self).written(),
                        )
                    } else {
                        e == CacheError::ProgrammingError && final(self).written() == old(
                            self,
                        ).written()
                    }
                },
            },
    {
        if !self.contains(parent_id) || !self.is_directory(parent_id) {
            return Err(CacheError::ProgrammingError);
        }
        let none: Vec<SqlValue> = Vec::new();
        let floor = self.next;
        let ghost written0 = self.written();
        let begun = self.run(BEGIN, &none);
        proof {
            assert(written0.subrange(0, written0.len() as int) =~= written0);
            lemma_extends_push(written0, written0, plain_statement(BEGIN@));
            assert(values_view(none@) =~= Seq::<SqlValueView>::empty());
        }
        if begun.is_none() {
            return Err(CacheError::PersistenceFailure);
        }
        let ghost entries0 = self@;
        let ghost ids0 = self.ids();
        let ghost fv = files_view(files@);
        let ghost mut all: Seq<u32> = Seq::empty();
        let mut hs: Vec<u32> = Vec::new();
        let mut seen: HashSet<u32> = HashSet::new();
        let mut created: Vec<u32> = Vec::new();
        let mut failed = false;
        let mut i: usize = 0;
        while i < files.len() && !failed
            invariant
                i <= files.len(),
                fv == files_view(files@),
                self.wf(),
                coherent(entries0, ids0),
                entries0.contains_key(parent_id),
                grown(entries0, ids0, self@, self.ids(), created@),
                floor <= 0x1_0000_0000,
                floor <= self.next_handle(),
                old(self).in_step() ==> self.in_step(),
                forall|k: u32| #[trigger] entries0.contains_key(k) ==> k < floor,
                forall|h: u32| #[trigger] self@.contains_key(h) && !entries0.contains_key(h) ==> h >= floor,
                extends(written0, self.written()),
                !failed ==> self.written() == written0.push(plain_statement(BEGIN@)) + listing_inserts(
                    fv,
                    i as nat,
                    ids0,
                    parent_id,
                ),
                forall|r: Seq<char>|
                    #[trigger] self.ids().contains_key(r) ==> ids0.contains_key(r) || exists|l: int|
                        0 <= l < i && (#[trigger] fv[l]).remote_id == r,
                all.len() == i,
                forall|j: int|
                    0 <= j < i ==> self.ids().contains_key((#[trigger] fv[j]).remote_id)
                        && self.ids()[fv[j].remote_id] == all[j],
                hs@ == first_occurrences(all),
                forall|h: u32| seen@.contains(h) <==> hs@.contains(h),
                forall|h: u32|
                    #[trigger] self@.contains_key(h) && !entries0.contains_key(h) ==> exists|j: int|
                        first_bearer(fv, j) && j < i && #[trigger] all[j] == h && self@[h]
                            == child_entry(fv[j], parent_id),
            decreases files.len() - i, if failed { 0int } else { 1int },
        {
            let ghost before = self@;
            let ghost ids_before = self.ids();
            let ghost created_before = created@;
            let ghost hs_before = hs@;
            let ghost all_before = all;
            let ghost written_before = self.written();
            assert(files[i as int]@ == fv[i as int]);
            let added = self.add_child(parent_id, &files[i]);
            proof {
                lemma_extends_push(
                    written0,
                    written_before,
                    insert_statement(child_entry(fv[i as int], parent_id)),
                );
            }
            match added {
                Ok((h, made)) => {
                    proof {
                        let rid = fv[i as int].remote_id;
                        if made {
                            assert forall|l: int| 0 <= l < i implies (#[trigger] fv[l]).remote_id
                                != rid by {
                                assert(ids_before.contains_key(fv[l].remote_id));
                            }
                            assert(first_bearer(fv, i as int));
                            if ids0.contains_key(rid) {
                                assert(ids_before.contains_key(rid));
                            }
                        } else {
                            assert(ids_before.contains_key(rid));
                            if !ids0.contains_key(rid) {
                                let l = choose|l: int|
                                    0 <= l < i && (#[trigger] fv[l]).remote_id == rid;
                                assert(!first_bearer(fv, i as int));
                            }
                        }
                        assert(self.written() =~= written0.push(plain_statement(BEGIN@))
                            + listing_inserts(fv, (i + 1) as nat, ids0, parent_id));
                        assert forall|r: Seq<char>| #[trigger]
                            self.ids().contains_key(r) implies ids0.contains_key(r) || exists|l: int|
                            0 <= l < i + 1 && (#[trigger] fv[l]).remote_id == r by {
                            if r == rid {
                                assert(fv[i as int].remote_id == r);
                            } else {
                                assert(ids_before.contains_key(r));
                                if !ids0.contains_key(r) {
                                    let l = choose|l: int|
                                        0 <= l < i && (#[trigger] fv[l]).remote_id == r;
                                    assert(0 <= l < i + 1 && fv[l].remote_id == r);
                                }
                            }
                        }
                    }
                    if seen.insert(h) {
                        hs.push(h);
                    }
                    if made {
                        created.push(h);
                        proof {
                            assert(created@[created_before.len() as int] == h);
                            assert forall|h2: u32|
                                #[trigger] self@.contains_key(h2) && !entries0.contains_key(
                                    h2,
                                ) implies listed(created@, created@.len() as int, h2) by {
                                if h2 != h {
                                    let j = choose|j: int|
                                        0 <= j < created_before.len() && #[trigger] created_before[j]
                                            == h2;
                                    assert(created@[j] == h2);
                                }
                            }
                        }
                    }
                    proof {
                        all = all.push(h);
                        assert(all.drop_last() =~= all_before);
                        assert(all.last() == h);
                        assert(hs@ == first_occurrences(all));
                        assert forall|x: u32| seen@.contains(x) <==> hs@.contains(x) by {
                            if hs_before.contains(x) {
                                let j = choose|j: int| 0 <= j < hs_before.len() && hs_before[j] == x;
                                assert(hs@[j] == x);
                            }
                            if hs@.contains(x) && !hs_before.contains(x) {
                                let j = choose|j: int| 0 <= j < hs@.len() && hs@[j] == x;
                                if j < hs_before.len() {
                                    assert(hs_before[j] == x);
                                }
                            }
                            if x == h && !hs_before.contains(h) {
                                assert(hs@[hs_before.len() as int] == h);
                            }
                        }
                        assert forall|j: int| 0 <= j < i + 1 implies self.ids().contains_key(
                            (#[trigger] fv[j]).remote_id,
                        ) && self.ids()[fv[j].remote_id] == all[j] by {
                            if j < i {
                                assert(ids_before.contains_key(fv[j].remote_id));
                                assert(all[j] == all_before[j]);
                            }
                        }
                        assert forall|h2: u32|
                            #[trigger] self@.contains_key(h2) && !entries0.contains_key(
                                h2,
                            ) implies exists|j: int|
                            first_bearer(fv, j) && j < i + 1 && #[trigger] all[j] == h2 && self@[h2]
                                == child_entry(fv[j], parent_id) by {
                            if made && h2 == h {
                                assert forall|l: int| 0 <= l < i implies (#[trigger] fv[l]).remote_id
                                    != fv[i as int].remote_id by {
                                    assert(ids_before.contains_key(fv[l].remote_id));
                                }
                                assert(first_bearer(fv, i as int));
                                assert(all[i as int] == h2);
                            } else {
                                assert(before.contains_key(h2));
                                let j = choose|j: int|
                                    first_bearer(fv, j) && j < i && #[trigger] all_before[j] == h2
                                        && before[h2] == child_entry(fv[j], parent_id);
                                assert(all[j] == h2);
                            }
                        }
                    }
                    i = i + 1;
                },
                Err(_) => {
                    failed = true;
                },
            }
        }
        let mut updated: Option<usize> = None;
        let mut committed: Option<usize> = None;
        let ghost written_mid = self.written();
        if !failed {
            let joined = join_handles_text(&hs);
            let params = update_params(joined.as_str(), parent_id);
            updated = self.run(UPDATE_CHILDREN, &params);
            proof {
                lemma_extends_push(written0, written_mid, children_statement(hs@, parent_id));
            }
            if landed(updated) {
                let ghost written_updated = self.written();
                committed = self.run(COMMIT, &none);
                proof {
                    lemma_extends_push(written0, written_updated, plain_statement(COMMIT@));
                }
            }
        }
        if !(landed(updated) && committed.is_some()) {
            let ghost written_failed = self.written();
            let _ = self.run(ROLLBACK, &none);
            proof {
                lemma_extends_push(written0, written_failed, plain_statement(ROLLBACK@));
            }
        }
        let ghost mid = self@;
        let ghost children = hs@;
        let r = self.settle_listing(parent_id, hs, &created, floor, updated, committed);
        proof {
            if r is Ok {
                let handles = file_handles(fv, self.ids());
                assert(all =~= handles);
                lemma_first_occurrences(handles);
                assert forall|j: int| 0 <= j < fv.len() implies children.contains(
                    self.ids()[(#[trigger] fv[j]).remote_id],
                ) by {
                    assert(handles[j] == self.ids()[fv[j].remote_id]);
                    assert(handles.contains(handles[j]));
                }
                assert forall|j: int| 0 <= j < children.len() implies exists|k: int|
                    0 <= k < fv.len() && self.ids()[(#[trigger] fv[k]).remote_id]
                        == #[trigger] children[j] by {
                    assert(children.contains(children[j]));
                    assert(handles.contains(children[j]));
                    let k = choose|k: int| 0 <= k < handles.len() && handles[k] == children[j];
                    assert(self.ids()[fv[k].remote_id] == children[j]);
                }
                assert forall|h: u32|
                    #[trigger] self@.contains_key(h) && !entries0.contains_key(
                        h,
                    ) implies exists|k: int|
                    first_bearer(fv, k) && self.ids()[(#[trigger] fv[k]).remote_id] == h
                        && self@[h] == child_entry(fv[k], parent_id) by {
                    assert(mid.contains_key(h));
                    let k = choose|k: int|
                        first_bearer(fv, k) && k < i && #[trigger] all[k] == h && mid[h]
                            == child_entry(fv[k], parent_id);
                    assert(self.ids()[fv[k].remote_id] == h);
                }
                assert forall|h: u32|
                    #[trigger] self@.contains_key(h) && !entries0.contains_key(
                        h,
                    ) implies above_all(entries0, h) by {
                    assert(mid.contains_key(h));
                }
                assert(self.written() =~= written0 + listing_statements(
                    fv,
                    ids0,
                    parent_id,
                    children,
                ));
            } else {
                assert(self@ =~= entries0);
                assert(self.ids() =~= ids0);
            }
        }
        r
    }

    /// Records `children` as the loaded children of the directory `id`, in
    /// memory only.
    pub fn set_children(&mut self, id: u32, children: Vec<u32>)
        requires
            old(self)@.contains_key(id),
            old(self)@[id].is_directory,
        ensures
            final(self)@ == old(self)@.insert(id, old(self)@[id].with_children(children@)),
            final(self).ids() == old(self).ids(),
            final(self).next_handle() == old(self).next_handle(),
            final(self).written() == old(self).written(),
            final(self).durable() == old(self).durable(),
            old(self).wf() ==> final(self).wf(),
    {
        match self.entries.remove(&id) {
            Some(mut e) => {
                e.children = Some(children);
                self.entries.insert(id, e);
            },
            None => {},
        }
    }

    /// Records `path` as the loaded content of the leaf `id`, in memory
    /// only.
    pub fn set_content_path(&mut self, id: u32, path: String)
        requires
            old(self)@.contains_key(id),
            !old(self)@[id].is_directory,
        ensures
            final(self)@ == old(self)@.insert(id, old(self)@[id].with_photo_path(path@)),
            final(self).ids() == old(self).ids(),
            final(self).next_handle() == old(self).next_handle(),
            final(self).written() == old(self).written(),
            final(self).durable() == old(self).durable(),
            old(self).wf() ==> final(self).wf(),
    {
        match self.entries.remove(&id) {
            Some(mut e) => {
                e.photo_path = Some(path);
                self.entries.insert(id, e);
            },
            None => {},
        }
    }

    /// The loaded children of the directory `id`. Asking for the children
    /// of a leaf, of an unknown handle, or of a directory that has not been
    /// listed is a programming error.
    pub fn get_children(&self, id: u32) -> (r: Result<Vec<u32>, CacheError>)
        ensures
            match r {
                Ok(children) => self@.contains_key(id) && self@[id].is_directory
                    && self@[id].children == Some(children@),
                Err(e) => e == CacheError::ProgrammingError && !(self@.contains_key(id)
                    && self@[id].is_directory && self@[id].children is Some),
            },
    {
        match self.entries.get(&id) {
            Some(e) => {
                if e.is_directory {
                    match &e.children {
                        Some(children) => Ok(copy_handles(children)),
                        None => Err(CacheError::ProgrammingError),
                    }
                } else {
                    Err(CacheError::ProgrammingError)
                }
            },
            None => Err(CacheError::ProgrammingError),
        }
    }

    /// Takes the answer of the durable table to the writing of `path` as the
    /// content path of the leaf `id`. Where the write landed, the path is
    /// recorded in memory; otherwise it is a persistence failure and
    /// nothing changes.
    pub fn commit_photo(&mut self, id: u32, path: &str, changed: Option<usize>) -> (r: Result<
        (),
        CacheError,
    >)
        requires
            old(self).wf(),
            old(self)@.contains_key(id),
            !old(self)@[id].is_directory,
        ensures
            final(self).wf(),
            final(self).ids() == old(self).ids(),
            final(self).next_handle() == old(self).next_handle(),
            final(self).written() == old(self).written(),
            r is Ok <==> landed_spec(changed),
            old(self).in_step() ==> final(self).in_step(),
            match r {
                Ok(_) => final(self)@ == old(self)@.insert(
                    id,
                    old(self)@[id].with_photo_path(path@),
                ) && final(self).durable() == old(self).durable().insert(
                    id,
                    row_with_photo_path(old(self).durable()[id], path@),
                ),
                Err(e) => e == CacheError::PersistenceFailure && final(self)@ == old(self)@
                    && final(self).durable() == old(self).durable(),
            },
    {
        if !landed(changed) {
            return Err(CacheError::PersistenceFailure);
        }
        self.set_content_path(id, String::from_str(path));
        self.table = Ghost(
            self.table@.insert(id, row_with_photo_path(self.table@[id], path@)),
        );
        Ok(())
    }

    /// Records `path` as the content of the leaf `id`: writes it to the
    /// durable table and then, as [`Index::commit_photo`] says, to memory.
    /// Doing so for a directory or an unknown handle is a programming
    /// error, and nothing is written.
    pub fn add_loaded_photo(&mut self, id: u32, path: &str) -> (r: Result<(), CacheError>)
        requires
            old(self).wf(),
        ensures
            final(self).wf(),
            final(self).ids() == old(self).ids(),
            final(self).next_handle() == old(self).next_handle(),
            final(self).written() == if old(self)@.contains_key(id) && !old(self)@[id].is_directory {
                old(self).written().push(photo_statement(path@, id))
            } else {
                old(self).written()
            },
            old(self).in_step() ==> final(self).in_step(),
            match r {
                Ok(_) => {
                    &&& old(self)@.contains_key(id)
                    &&& !old(self)@[id].is_directory
                    &&& final(self)@ == old(self)@.insert(id, old(self)@[id].with_photo_path(path@))
                },
                Err(e) => {
                    &&& final(self)@ == old(self)@
                    &&& e == if old(self)@.contains_key(id) && !old(self)@[id].is_directory {
                        CacheError::PersistenceFailure
                    } else {
                        CacheError::ProgrammingError
                    }
                },
            },
    {
        if !self.contains(id) || self.is_directory(id) {
            return Err(CacheError::ProgrammingError);
        }
        let params = update_params(path, id);
        let changed = self.run(UPDATE_PHOTO_PATH, &params);
        self.commit_photo(id, path, changed)
    }

    /// Whether nothing more has to be fetched for the node `id`.
    pub fn is_fully_loaded(&self, id: u32) -> (b: bool)
        requires
            self@.contains_key(id),
        ensures
            b == self@[id].fully_loaded(),
    {
        let e = self.entries.get(&id).unwrap();
        if e.is_directory {
            e.children.is_some()
        } else {
            e.photo_path.is_some()
        }
    }

    /// The local path of the content of the node `id`.
    pub fn get_photo_path(&self, id: u32) -> (path: String)
        requires
            self@.contains_key(id),
            self@[id].photo_path is Some,
        ensures
            Some(path@) == self@[id].photo_path,
    {
        let e = self.entries.get(&id).unwrap();
        match &e.photo_path {
            Some(p) => p.clone(),
            None => String::new(),
        }
    }

    /// The remote identifier of the node `id`.
    pub fn get_drive_id(&self, id: u32) -> (s: &str)
        requires
            self@.contains_key(id),
        ensures
            s@ == self@[id].drive_id,
    {
        self.entries.get(&id).unwrap().drive_id.as_str()
    }

    /// The display name of the node `id`.
    pub fn get_name(&self, id: u32) -> (s: &str)
        requires
            self@.contains_key(id),
        ensures
            s@ == self@[id].name,
    {
        self.entries.get(&id).unwrap().name.as_str()
    }

    /// The handle of the parent of the node `id`.
    pub fn get_parent(&self, id: u32) -> (p: u32)
        requires
            self@.contains_key(id),
        ensures
            p == self@[id].parent,
    {
        self.entries.get(&id).unwrap().parent
    }

    /// The type tag of the node `id`.
    pub fn get_drive_type(&self, id: u32) -> (s: &str)
        requires
            self@.contains_key(id),
        ensures
            s@ == self@[id].drive_type,
    {
        self.entries.get(&id).unwrap().drive_type.as_str()
    }

    /// Whether the node `id` is a directory.
    pub fn is_directory(&self, id: u32) -> (b: bool)
        requires
            self@.contains_key(id),
        ensures
            b == self@[id].is_directory,
    {
        self.entries.get(&id).unwrap().is_directory
    }

    /// Whether the tree holds no node at all.
    pub fn is_empty(&self) -> (b: bool)
        ensures
            b == (forall|h: u32| !self@.contains_key(h)),
    {
        let b = self.entries.is_empty();
        proof {
            if !b {
                let h = choose|h: u32| self.entries@.dom().contains(h);
                assert(self@.contains_key(h));
            }
        }
        b
    }

    /// Forgets the children of the node `id`, so that they are listed again
    /// when next asked for. The durable table is left as it is: a tree
    /// that is opened anew has the children again.
    pub fn clear_children(&mut self, id: u32)
        requires
            old(self)@.contains_key(id),
        ensures
            final(self)@ == old(self)@.insert(id, old(self)@[id].without_children()),
            final(self).ids() == old(self).ids(),
            final(self).next_handle() == old(self).next_handle(),
            final(self).written() == old(self).written(),
            final(self).durable() == old(self).durable(),
            old(self).wf() ==> final(self).wf(),
            old(self).in_step() ==> final(self).in_step(),
    {
        match self.entries.remove(&id) {
            Some(mut e) => {
                e.children = None;
                self.entries.insert(id, e);
            },
            None => {},
        }
    }
}

} // verus!
