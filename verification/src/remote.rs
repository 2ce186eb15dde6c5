//! What the tree knows of the remote service: how a listed node looks, by
//! which type tag a folder is known, and the texts of the two requests.

use vstd::prelude::*;
use vstd::string::*;
use crate::text::same_text;

verus! {

/// The type tag by which the remote service marks a folder.
pub const DRIVE_FOLDER_TYPE: &'static str = "application/vnd.google-apps.folder";

/// The access scope under which the content of a node is fetched.
pub const FETCH_SCOPE: &'static str = "https://www.googleapis.com/auth/drive";

/// One node as the remote service lists it.
pub struct RemoteFile {
    pub remote_id: String,
    pub name: String,
    pub kind: String,
}

/// The mathematical value of a [`RemoteFile`].
pub struct RemoteFileView {
    pub remote_id: Seq<char>,
    pub name: Seq<char>,
    pub kind: Seq<char>,
}

impl View for RemoteFile {
    type V = RemoteFileView;

    open spec fn view(&self) -> RemoteFileView {
        RemoteFileView { remote_id: self.remote_id@, name: self.name@, kind: self.kind@ }
    }
}

/// Whether a type tag is that of a folder.
pub open spec fn is_folder(kind: Seq<char>) -> bool {
    kind == DRIVE_FOLDER_TYPE@
}

/// Tells whether a type tag is that of a folder.
pub fn is_folder_type(kind: &str) -> (b: bool)
    ensures
        b == is_folder(kind@),
{
    same_text(kind, DRIVE_FOLDER_TYPE)
}

/// The query that lists the direct children of a node that are not in the
/// trash.
pub open spec fn children_query_spec(remote_id: Seq<char>) -> Seq<char> {
    "'"@ + remote_id + "' in parents and trashed = false"@
}

/// Writes the query that lists the children of the node `remote_id`.
pub fn children_query(remote_id: &str) -> (q: String)
    ensures
        q@ == children_query_spec(remote_id@),
{
    let mut q = String::from_str("'");
    q.append(remote_id);
    q.append("' in parents and trashed = false");
    q
}

} // verus!
