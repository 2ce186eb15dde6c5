//! The pipeline that turns a remote photo into a local file, as a state
//! machine: each step takes the stage the pipeline is in and what has just
//! happened, and names the next stage and what has to be done. Fetching,
//! writing and converting are done by the caller; every decision is made
//! here.

use vstd::prelude::*;
use vstd::string::*;
use crate::error::CacheError;
use crate::remote::FETCH_SCOPE;
use crate::text::{decimal, decimal_string, same_text, text_view};

verus! {

/// The type tag of the raw photos that carry a preview inside.
pub const RAW_PHOTO_TYPE: &'static str = "image/x-nikon-nef";

/// The program that takes the preview out of a raw photo.
pub const EXTRACTOR: &'static str = "/usr/local/bin/exiv2";

/// Where the pipeline of one leaf stands.
#[derive(Debug, Clone, Copy, PartialEq, Eq, Structural)]
pub enum PhotoStage {
    /// Nothing has been done.
    Unloaded,
    /// The content is being fetched and written to its cache file.
    Fetching,
    /// The cache file holds a photo that can be used as it is.
    Plain,
    /// The cache file holds a raw photo whose preview is being extracted.
    RawWithPreview,
    /// The content path has been recorded.
    Loaded,
}

/// What has just happened to the pipeline of one leaf.
#[derive(Debug, Clone, Copy, PartialEq, Eq, Structural)]
pub enum PhotoEvent {
    /// The content path was asked for.
    Requested,
    /// The content was fetched and written.
    Fetched,
    /// The preview was extracted and moved to its place.
    Extracted,
    /// The last action failed.
    Failed(CacheError),
}

/// What has to be done next for one leaf.
pub enum PhotoAction {
    /// Fetch the content of `remote_id` under `scope` and write it to
    /// `path`.
    Fetch { remote_id: String, scope: String, path: String },
    /// Run `program` with `args`, then rename its output `preview` to
    /// `path`.
    Extract { program: String, args: Vec<String>, preview: String, path: String },
    /// Record `path` as the content path of the leaf.
    Commit { path: String },
    /// Nothing: the content is at `path`.
    Done { path: String },
}

/// The mathematical value of a [`PhotoAction`].
pub enum PhotoActionView {
    Fetch { remote_id: Seq<char>, scope: Seq<char>, path: Seq<char> },
    Extract { program: Seq<char>, args: Seq<Seq<char>>, preview: Seq<char>, path: Seq<char> },
    Commit { path: Seq<char> },
    Done { path: Seq<char> },
}

/// The views of a list of texts.
pub open spec fn texts_view(texts: Seq<String>) -> Seq<Seq<char>> {
    Seq::new(texts.len(), |i: int| texts[i]@)
}

impl View for PhotoAction {
    type V = PhotoActionView;

    open spec fn view(&self) -> PhotoActionView {
        match self {
            PhotoAction::Fetch { remote_id, scope, path } => PhotoActionView::Fetch {
                remote_id: remote_id@,
                scope: scope@,
                path: path@,
            },
            PhotoAction::Extract { program, args, preview, path } => PhotoActionView::Extract {
                program: program@,
                args: texts_view(args@),
                preview: preview@,
                path: path@,
            },
            PhotoAction::Commit { path } => PhotoActionView::Commit { path: path@ },
            PhotoAction::Done { path } => PhotoActionView::Done { path: path@ },
        }
    }
}

/// The cache file of the leaf `handle` whose name has the extension `ext`.
pub open spec fn cache_path_spec(handle: u32, ext: Seq<char>) -> Seq<char> {
    "cache/"@ + decimal(handle as nat) + "."@ + ext
}

/// The file that the extractor writes for the leaf `handle`.
pub open spec fn preview_path_spec(handle: u32) -> Seq<char> {
    "cache/"@ + decimal(handle as nat) + "-preview3.jpg"@
}

/// The cache file of the extracted preview of the leaf `handle`.
pub open spec fn jpg_path_spec(handle: u32) -> Seq<char> {
    cache_path_spec(handle, "jpg"@)
}

/// The arguments with which the extractor is run on the file `raw`.
pub open spec fn extract_args_spec(raw: Seq<char>) -> Seq<Seq<char>> {
    seq!["-ep3"@, "-l"@, "./cache/"@, raw]
}

/// Whether a type tag is that of a raw photo.
pub open spec fn is_raw(kind: Seq<char>) -> bool {
    kind == RAW_PHOTO_TYPE@
}

/// Names the cache file of the leaf `handle`.
pub fn cache_path(handle: u32, ext: &str) -> (path: String)
    ensures
        path@ == cache_path_spec(handle, ext@),
{
    let mut path = String::from_str("cache/");
    path.append(decimal_string(handle).as_str());
    path.append(".");
    path.append(ext);
    path
}

/// Names the file that the extractor writes for the leaf `handle`.
pub fn preview_path(handle: u32) -> (path: String)
    ensures
        path@ == preview_path_spec(handle),
{
    let mut path = String::from_str("cache/");
    path.append(decimal_string(handle).as_str());
    path.append("-preview3.jpg");
    path
}

/// Lists the arguments of the extractor for the file `raw`.
pub fn extract_args(raw: &str) -> (args: Vec<String>)
    ensures
        texts_view(args@) == extract_args_spec(raw@),
{
    let mut args: Vec<String> = Vec::new();
    args.push(String::from_str("-ep3"));
    args.push(String::from_str("-l"));
    args.push(String::from_str("./cache/"));
    args.push(String::from_str(raw));
    assert(texts_view(args@) =~= extract_args_spec(raw@));
    args
}

/// The extension that `std::path::Path::extension` finds in a name.
pub uninterp spec fn extension_of(name: Seq<char>) -> Option<Seq<char>>;

/// Calls `std::path::Path::extension` on `name` and gives the extension as
/// a text. The answer depends on the name alone and is called
/// [`extension_of`]. Claimed of it besides is what the documentation of
/// that function says of every name: the extension is what follows the
/// last `.` of the file name, so it holds no `.` itself, and a name
/// without any `.` has no extension.
#[verifier::external_body]
pub(crate) fn name_extension(name: &str) -> (ext: Option<String>)
    ensures
        text_view(ext) == extension_of(name@),
        ext matches Some(e) ==> !e@.contains('.'),
        !name@.contains('.') ==> ext is None,
{
    match std::path::Path::new(name).extension() {
        Some(e) => match e.to_str() {
            Some(s) => Some(s.to_string()),
            None => None,
        },
        None => None,
    }
}

/// The step that the pipeline of the leaf `handle` takes.
///
/// - Asked for the content of an unloaded leaf, it has the content fetched
///   into the cache file named after the handle and the extension.
/// - Once that is fetched, a raw photo has its preview extracted; any other
///   content is committed as it is.
/// - Once the preview is extracted, the preview is committed.
/// - A failure of the last action ends the pipeline with that failure.
/// - A name without extension gives no cache file: a local failure.
/// - Any other pair of stage and event is a programming error.
pub open spec fn step_spec(
    handle: u32,
    remote_id: Seq<char>,
    kind: Seq<char>,
    ext: Option<Seq<char>>,
    stage: PhotoStage,
    event: PhotoEvent,
) -> Result<(PhotoStage, PhotoActionView), CacheError> {
    match (stage, event) {
        (_, PhotoEvent::Failed(e)) => Err(e),
        (PhotoStage::Unloaded, PhotoEvent::Requested) => match ext {
            Some(x) => Ok(
                (
                    PhotoStage::Fetching,
                    PhotoActionView::Fetch {
                        remote_id,
                        scope: FETCH_SCOPE@,
                        path: cache_path_spec(handle, x),
                    },
                ),
            ),
            None => Err(CacheError::LocalIoFailure),
        },
        (PhotoStage::Fetching, PhotoEvent::Fetched) => match ext {
            Some(x) => if is_raw(kind) {
                Ok(
                    (
                        PhotoStage::RawWithPreview,
                        PhotoActionView::Extract {
                            program: EXTRACTOR@,
                            args: extract_args_spec(cache_path_spec(handle, x)),
                            preview: preview_path_spec(handle),
                            path: jpg_path_spec(handle),
                        },
                    ),
                )
            } else {
                Ok((PhotoStage::Plain, PhotoActionView::Commit { path: cache_path_spec(handle, x) }))
            },
            None => Err(CacheError::LocalIoFailure),
        },
        (PhotoStage::RawWithPreview, PhotoEvent::Extracted) => Ok(
            (PhotoStage::RawWithPreview, PhotoActionView::Commit { path: jpg_path_spec(handle) }),
        ),
        _ => Err(CacheError::ProgrammingError),
    }
}

/// What a fetch amounts to. A content that the remote service did not
/// deliver is a remote failure; a delivered content that could not be
/// written to its cache file is a local failure.
pub open spec fn fetch_event_spec(delivered: bool, written: bool) -> PhotoEvent {
    if !delivered {
        PhotoEvent::Failed(CacheError::RemoteFailure)
    } else if !written {
        PhotoEvent::Failed(CacheError::LocalIoFailure)
    } else {
        PhotoEvent::Fetched
    }
}

/// What an extraction amounts to. An extractor that did not run to a
/// clean exit, or that left no output, is a conversion failure; an output
/// that could not be renamed to its place is a local failure.
pub open spec fn extract_event_spec(exited_clean: bool, output_found: bool, renamed: bool) -> PhotoEvent {
    if !exited_clean || !output_found {
        PhotoEvent::Failed(CacheError::ConversionFailure)
    } else if !renamed {
        PhotoEvent::Failed(CacheError::LocalIoFailure)
    } else {
        PhotoEvent::Extracted
    }
}

/// Names the event that a fetch ends in: `delivered` says whether the
/// remote service gave the content, `written` whether it was written to
/// the cache file.
pub fn fetch_event(delivered: bool, written: bool) -> (event: PhotoEvent)
    ensures
        event == fetch_event_spec(delivered, written),
{
    if !delivered {
        PhotoEvent::Failed(CacheError::RemoteFailure)
    } else if !written {
        PhotoEvent::Failed(CacheError::LocalIoFailure)
    } else {
        PhotoEvent::Fetched
    }
}

/// Names the event that an extraction ends in: `exited_clean` says whether
/// the extractor ran and exited with success, `output_found` whether its
/// output was there to be renamed, `renamed` whether the renaming was
/// done.
pub fn extract_event(exited_clean: bool, output_found: bool, renamed: bool) -> (event: PhotoEvent)
    ensures
        event == extract_event_spec(exited_clean, output_found, renamed),
{
    if !exited_clean || !output_found {
        PhotoEvent::Failed(CacheError::ConversionFailure)
    } else if !renamed {
        PhotoEvent::Failed(CacheError::LocalIoFailure)
    } else {
        PhotoEvent::Extracted
    }
}

/// The view of the outcome of a step.
pub open spec fn step_view(r: Result<(PhotoStage, PhotoAction), CacheError>) -> Result<
    (PhotoStage, PhotoActionView),
    CacheError,
> {
    match r {
        Ok((stage, action)) => Ok((stage, action@)),
        Err(e) => Err(e),
    }
}

/// Takes one step of the pipeline of the leaf `handle`, whose remote
/// identifier is `remote_id`, whose type tag is `kind`, and whose name has
/// the extension `ext`.
pub fn photo_step(
    handle: u32,
    remote_id: &str,
    kind: &str,
    ext: &Option<String>,
    stage: PhotoStage,
    event: PhotoEvent,
) -> (r: Result<(PhotoStage, PhotoAction), CacheError>)
    ensures
        step_view(r) == step_spec(handle, remote_id@, kind@, text_view(*ext), stage, event),
{
    match event {
        PhotoEvent::Failed(e) => Err(e),
        PhotoEvent::Requested => match stage {
            PhotoStage::Unloaded => match ext {
                Some(x) => Ok(
                    (
                        PhotoStage::Fetching,
                        PhotoAction::Fetch {
                            remote_id: String::from_str(remote_id),
                            scope: String::from_str(FETCH_SCOPE),
                            path: cache_path(handle, x.as_str()),
                        },
                    ),
                ),
                None => Err(CacheError::LocalIoFailure),
            },
            _ => Err(CacheError::ProgrammingError),
        },
        PhotoEvent::Fetched => match stage {
            PhotoStage::Fetching => match ext {
                Some(x) => {
                    let raw = cache_path(handle, x.as_str());
                    if same_text(kind, RAW_PHOTO_TYPE) {
                        Ok(
                            (
                                PhotoStage::RawWithPreview,
                                PhotoAction::Extract {
                                    program: String::from_str(EXTRACTOR),
                                    args: extract_args(raw.as_str()),
                                    preview: preview_path(handle),
                                    path: cache_path(handle, "jpg"),
                                },
                            ),
                        )
                    } else {
                        Ok((PhotoStage::Plain, PhotoAction::Commit { path: raw }))
                    }
                },
                None => Err(CacheError::LocalIoFailure),
            },
            _ => Err(CacheError::ProgrammingError),
        },
        PhotoEvent::Extracted => match stage {
            PhotoStage::RawWithPreview => Ok(
                (PhotoStage::RawWithPreview, PhotoAction::Commit { path: cache_path(handle, "jpg") }),
            ),
            _ => Err(CacheError::ProgrammingError),
        },
    }
}

} // verus!
