//! The facade over the tree cache. It answers the two questions that a
//! host asks, "which children has this directory" and "where is the content
//! of this leaf", from the cache where it can, and otherwise names the
//! remote work that has to be done first. The host does that work and comes
//! back with what happened.

use vstd::prelude::*;
use vstd::string::*;
use crate::error::CacheError;
use crate::index::{
    children_recorded, coherent, extends, files_view, follows, listing_statements,
    photo_statement, EntryView, Index,
};
use crate::store::{StoredRowView, Written};
use crate::photo::{
    cache_path_spec, extension_of, name_extension, photo_step, step_spec, step_view, PhotoAction,
    PhotoActionView, PhotoEvent, PhotoStage,
};
use crate::remote::{
    children_query, children_query_spec, RemoteFile, RemoteFileView, FETCH_SCOPE,
};
use crate::text::text_view;

verus! {

/// What has just happened to the listing of a directory.
pub enum ListEvent {
    /// The children were asked for.
    Requested,
    /// The remote service listed these children.
    Listed(Vec<RemoteFile>),
    /// The remote service could not list the children.
    Failed,
}

/// What has to be done next for the listing of a directory.
pub enum ListAction {
    /// Nothing: these are the children.
    Return(Vec<u32>),
    /// Ask the remote service for the nodes that `query` selects.
    List { query: String },
}

/// Whether `id` is the handle of a directory.
pub open spec fn is_known_directory(entries: Map<u32, EntryView>, id: u32) -> bool {
    entries.contains_key(id) && entries[id].is_directory
}

/// Whether `id` is the handle of a leaf.
pub open spec fn is_known_leaf(entries: Map<u32, EntryView>, id: u32) -> bool {
    entries.contains_key(id) && !entries[id].is_directory
}

/// Whether the children of the directory `id` are answered from the cache.
pub open spec fn answers_from_cache(entries: Map<u32, EntryView>, id: u32) -> bool {
    is_known_directory(entries, id) && entries[id].children is Some
}

/// How a planned step of the photo pipeline ends. A step that plans to
/// commit a path either records it, and the leaf is loaded, or fails to
/// persist it, and nothing changes. Every other step is handed on as
/// planned and changes nothing.
pub open spec fn settled(
    entries0: Map<u32, EntryView>,
    entries: Map<u32, EntryView>,
    id: u32,
    plan: Result<(PhotoStage, PhotoActionView), CacheError>,
    r: Result<(PhotoStage, PhotoActionView), CacheError>,
) -> bool {
    match plan {
        Ok((_, PhotoActionView::Commit { path })) => {
            ||| r == Ok::<(PhotoStage, PhotoActionView), CacheError>(
                (PhotoStage::Loaded, PhotoActionView::Done { path }),
            ) && entries == entries0.insert(id, entries0[id].with_photo_path(path))
            ||| r == Err::<(PhotoStage, PhotoActionView), CacheError>(
                CacheError::PersistenceFailure,
            ) && entries == entries0
        },
        _ => r == plan && entries == entries0,
    }
}

/// What asking for the content path of `id` hands to the durable table: the
/// statement that writes the path, where the step commits one, and
/// nothing otherwise.
pub open spec fn photo_written(
    entries0: Map<u32, EntryView>,
    id: u32,
    stage: PhotoStage,
    event: PhotoEvent,
) -> Seq<Written> {
    if is_known_leaf(entries0, id) && entries0[id].photo_path is None {
        match step_spec(
            id,
            entries0[id].drive_id,
            entries0[id].drive_type,
            extension_of(entries0[id].name),
            stage,
            event,
        ) {
            Ok((_, PhotoActionView::Commit { path })) => seq![photo_statement(path, id)],
            _ => Seq::empty(),
        }
    } else {
        Seq::empty()
    }
}

/// What asking for the content path of `id` does.
///
/// - For a directory or an unknown handle it is a programming error.
/// - A leaf whose content is loaded answers with its path at once, whatever
///   the stage and the event.
/// - Any other leaf takes the step that the pipeline defines for its
///   handle, remote identifier, type tag and the extension of its name. A
///   step is owed wherever the pipeline defines one: only the recording
///   of a committed path can fail, as a persistence failure.
pub open spec fn photo_outcome(
    entries0: Map<u32, EntryView>,
    entries: Map<u32, EntryView>,
    id: u32,
    stage: PhotoStage,
    event: PhotoEvent,
    r: Result<(PhotoStage, PhotoActionView), CacheError>,
) -> bool {
    if !is_known_leaf(entries0, id) {
        r == Err::<(PhotoStage, PhotoActionView), CacheError>(CacheError::ProgrammingError)
            && entries == entries0
    } else if entries0[id].photo_path is Some {
        r == Ok::<(PhotoStage, PhotoActionView), CacheError>(
            (PhotoStage::Loaded, PhotoActionView::Done { path: entries0[id].photo_path->0 }),
        ) && entries == entries0
    } else {
        settled(
            entries0,
            entries,
            id,
            step_spec(
                id,
                entries0[id].drive_id,
                entries0[id].drive_type,
                extension_of(entries0[id].name),
                stage,
                event,
            ),
            r,
        )
    }
}

/// Once a listing has been recorded for a directory, its children are
/// answered from the cache, and they are the handles of that listing: the
/// remote service is not asked again.
pub proof fn lemma_recorded_listing_is_cached(
    entries0: Map<u32, EntryView>,
    ids0: Map<Seq<char>, u32>,
    entries: Map<u32, EntryView>,
    ids: Map<Seq<char>, u32>,
    parent: u32,
    files: Seq<RemoteFileView>,
    hs: Seq<u32>,
)
    requires
        children_recorded(entries0, ids0, entries, ids, parent, files, hs),
    ensures
        answers_from_cache(entries, parent),
        entries[parent].children == Some(hs),
{
}

/// A leaf becomes loaded only by the step that commits its content path:
/// where asking for the path of an unloaded leaf leaves it loaded, the
/// answer is that the pipeline is done, with the very path that the leaf
/// now holds.
pub proof fn lemma_loaded_only_when_committed(
    entries0: Map<u32, EntryView>,
    entries: Map<u32, EntryView>,
    id: u32,
    stage: PhotoStage,
    event: PhotoEvent,
    r: Result<(PhotoStage, PhotoActionView), CacheError>,
)
    requires
        photo_outcome(entries0, entries, id, stage, event, r),
        is_known_leaf(entries0, id),
        !entries0[id].fully_loaded(),
    ensures
        entries.contains_key(id),
        entries[id].fully_loaded() ==> (r matches Ok(
            (PhotoStage::Loaded, PhotoActionView::Done { path }),
        ) && entries[id].photo_path == Some(path)),
        !entries[id].fully_loaded() ==> entries == entries0,
{
}

/// Asking for the content of an unloaded leaf whose name has an extension
/// has the content fetched, into the cache file named after the handle and
/// that extension; nothing changes.
pub proof fn lemma_fetch_is_owed(
    entries0: Map<u32, EntryView>,
    entries: Map<u32, EntryView>,
    id: u32,
    r: Result<(PhotoStage, PhotoActionView), CacheError>,
)
    requires
        photo_outcome(entries0, entries, id, PhotoStage::Unloaded, PhotoEvent::Requested, r),
        is_known_leaf(entries0, id),
        !entries0[id].fully_loaded(),
        extension_of(entries0[id].name) is Some,
    ensures
        r == Ok::<(PhotoStage, PhotoActionView), CacheError>(
            (
                PhotoStage::Fetching,
                PhotoActionView::Fetch {
                    remote_id: entries0[id].drive_id,
                    scope: FETCH_SCOPE@,
                    path: cache_path_spec(id, extension_of(entries0[id].name)->0),
                },
            ),
        ),
        entries == entries0,
{
}

/// The tree cache together with the decisions of what to ask of the remote
/// service.
pub struct GoogleDrive {
    index: Index,
}

impl GoogleDrive {
    /// The nodes of the tree, by handle.
    pub closed spec fn view(&self) -> Map<u32, EntryView> {
        self.index@
    }

    /// The handle of each remote identifier that the tree knows.
    pub closed spec fn ids(&self) -> Map<Seq<char>, u32> {
        self.index.ids()
    }

    /// The lowest handle that a new node may get.
    pub closed spec fn next_handle(&self) -> nat {
        self.index.next_handle()
    }

    /// Every statement that the tree has handed to its durable table.
    pub closed spec fn written(&self) -> Seq<Written> {
        self.index.written()
    }

    /// The rows of the durable table as the tree has read and written them.
    pub closed spec fn durable(&self) -> Map<u32, StoredRowView> {
        self.index.durable()
    }

    /// Whether memory is in step with the durable table.
    pub open spec fn in_step(&self) -> bool {
        follows(self@, self.durable())
    }

    /// The invariant of the tree.
    pub open spec fn wf(&self) -> bool {
        &&& coherent(self@, self.ids())
        &&& self.next_handle() <= 0x1_0000_0000
        &&& forall|k: u32| #[trigger] self@.contains_key(k) ==> k < self.next_handle()
    }

    /// Opens the tree kept at the usual place.
    pub fn new() -> (r: Result<GoogleDrive, CacheError>)
        ensures
            match r {
                Ok(drive) => drive.wf() && drive.in_step() && exists|h: u32| drive@.contains_key(h),
                Err(e) => e == CacheError::PersistenceFailure,
            },
    {
        match Index::new() {
            Ok(index) => Ok(GoogleDrive { index }),
            Err(e) => Err(e),
        }
    }

    /// Puts the facade over a tree.
    pub fn with_index(index: Index) -> (drive: GoogleDrive)
        ensures
            drive@ == index@,
            drive.ids() == index.ids(),
            drive.next_handle() == index.next_handle(),
            drive.written() == index.written(),
            drive.durable() == index.durable(),
    {
        GoogleDrive { index }
    }

    /// The tree under the facade.
    pub fn index(&self) -> (index: &Index)
        ensures
            index@ == self@,
            index.ids() == self.ids(),
            index.next_handle() == self.next_handle(),
            index.written() == self.written(),
            index.durable() == self.durable(),
    {
        &self.index
    }

    /// Tells whether `id` is the handle of a node.
    pub fn contains(&self, id: u32) -> (b: bool)
        ensures
            b == self@.contains_key(id),
    {
        self.index.contains(id)
    }

    /// Answers or advances the listing of the children of `id`.
    ///
    /// - For a leaf or an unknown handle it is a programming error.
    /// - A directory whose children are loaded answers with them, whatever
    ///   the event, and nothing changes.
    /// - Asked for the children of any other directory, it names the query
    ///   to put to the remote service.
    /// - Told that the service failed, it reports a remote failure.
    /// - Given the listing, it records it and answers with the handles, or
    ///   reports that the listing could not be persisted, in which case
    ///   nothing has changed.
    pub fn get_children(&mut self, id: u32, event: ListEvent) -> (r: Result<ListAction, CacheError>)
        requires
            old(self).wf(),
        ensures
            final(self).wf(),
            old(self).in_step() ==> final(self).in_step(),
            !is_known_directory(old(self)@, id) ==> {
                &&& r matches Err(e) && e == CacheError::ProgrammingError
                &&& final(self)@ == old(self)@
                &&& final(self).ids() == old(self).ids()
                &&& final(self).written() == old(self).written()
            },
            answers_from_cache(old(self)@, id) ==> {
                &&& r matches Ok(ListAction::Return(v)) && Some(v@) == old(self)@[id].children
                &&& final(self)@ == old(self)@
                &&& final(self).ids() == old(self).ids()
                &&& final(self).written() == old(self).written()
            },
            is_known_directory(old(self)@, id) && !answers_from_cache(old(self)@, id) ==> match event {
                ListEvent::Requested => {
                    &&& r matches Ok(ListAction::List { query }) && query@ == children_query_spec(
                        old(self)@[id].drive_id,
                    )
                    &&& final(self)@ == old(self)@
                    &&& final(self).ids() == old(self).ids()
                    &&& final(self).written() == old(self).written()
                },
                ListEvent::Failed => {
                    &&& r matches Err(e) && e == CacheError::RemoteFailure
                    &&& final(self)@ == old(self)@
                    &&& final(self).ids() == old(self).ids()
                    &&& final(self).written() == old(self).written()
                },
                ListEvent::Listed(files) => match r {
                    Ok(ListAction::Return(hs)) => {
                        &&& children_recorded(
                            old(self)@,
                            old(self).ids(),
                            final(self)@,
                            final(self).ids(),
                            id,
                            files_view(files@),
                            hs@,
                        )
                        &&& final(self).written() == old(self).written() + listing_statements(
                            files_view(files@),
                            old(self).ids(),
                            id,
                            hs@,
                        )
                    },
                    Ok(ListAction::List { .. }) => false,
                    Err(e) => {
                        &&& e == CacheError::PersistenceFailure
                        &&& final(self)@ == old(self)@
                        &&& final(self).ids() == old(self).ids()
                        &&& extends(old(self).written(), final(self).written())
                    },
                },
            },
    {
        if !self.index.contains(id) || !self.index.is_directory(id) {
            return Err(CacheError::ProgrammingError);
        }
        if self.index.is_fully_loaded(id) {
            return match self.index.get_children(id) {
                Ok(children) => Ok(ListAction::Return(children)),
                Err(e) => Err(e),
            };
        }
        match event {
            ListEvent::Requested => Ok(
                ListAction::List { query: children_query(self.index.get_drive_id(id)) },
            ),
            ListEvent::Failed => Err(CacheError::RemoteFailure),
            ListEvent::Listed(files) => match self.index.add_children(id, &files) {
                Ok(hs) => Ok(ListAction::Return(hs)),
                Err(e) => Err(e),
            },
        }
    }

    /// Answers or advances the pipeline that makes the content of `id` a
    /// local file: see [`photo_outcome`].
    pub fn get_photo_path(&mut self, id: u32, stage: PhotoStage, event: PhotoEvent) -> (r: Result<
        (PhotoStage, PhotoAction),
        CacheError,
    >)
        requires
            old(self).wf(),
        ensures
            final(self).wf(),
            final(self).ids() == old(self).ids(),
            old(self).in_step() ==> final(self).in_step(),
            photo_outcome(old(self)@, final(self)@, id, stage, event, step_view(r)),
            final(self).written() == old(self).written() + photo_written(
                old(self)@,
                id,
                stage,
                event,
            ),
    {
        if !self.index.contains(id) || self.index.is_directory(id) {
            return Err(CacheError::ProgrammingError);
        }
        if self.index.is_fully_loaded(id) {
            return Ok((PhotoStage::Loaded, PhotoAction::Done { path: self.index.get_photo_path(id) }));
        }
        let ext = name_extension(self.index.get_name(id));
        let ghost ext_seen = text_view(ext);
        let ghost plan = step_spec(
            id,
            self@[id].drive_id,
            self@[id].drive_type,
            ext_seen,
            stage,
            event,
        );
        let step = photo_step(
            id,
            self.index.get_drive_id(id),
            self.index.get_drive_type(id),
            &ext,
            stage,
            event,
        );
        let r = match step {
            Ok((_, PhotoAction::Commit { path })) => {
                match self.index.add_loaded_photo(id, path.as_str()) {
                    Ok(_) => Ok((PhotoStage::Loaded, PhotoAction::Done { path })),
                    Err(_) => Err(CacheError::PersistenceFailure),
                }
            },
            other => other,
        };
        proof {
            assert(settled(old(self)@, self@, id, plan, step_view(r)));
        }
        r
    }

    /// The display name of the node `id`.
    pub fn get_name(&self, id: u32) -> (name: String)
        requires
            self@.contains_key(id),
        ensures
            name@ == self@[id].name,
    {
        String::from_str(self.index.get_name(id))
    }

    /// The handle of the parent of the node `id`.
    pub fn get_parent(&self, id: u32) -> (p: u32)
        requires
            self@.contains_key(id),
        ensures
            p == self@[id].parent,
    {
        self.index.get_parent(id)
    }

    /// Whether the node `id` is a directory.
    pub fn is_directory(&self, id: u32) -> (b: bool)
        requires
            self@.contains_key(id),
        ensures
            b == self@[id].is_directory,
    {
        self.index.is_directory(id)
    }
}

} // verus!
