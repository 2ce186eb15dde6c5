use photoman_core::drive::{GoogleDrive, ListAction, ListEvent};
use photoman_core::error::CacheError;
use photoman_core::index::Index;
use photoman_core::remote::{children_query, is_folder_type, RemoteFile, DRIVE_FOLDER_TYPE};

fn file(remote_id: &str, name: &str, kind: &str) -> RemoteFile {
    RemoteFile { remote_id: remote_id.to_string(), name: name.to_string(), kind: kind.to_string() }
}

fn fresh_drive() -> (GoogleDrive, u32) {
    let index = Index::open(":memory:").unwrap();
    let root = index.resolve("root").unwrap();
    (GoogleDrive::with_index(index), root)
}

fn returned(r: Result<ListAction, CacheError>) -> Vec<u32> {
    match r {
        Ok(ListAction::Return(hs)) => hs,
        _ => panic!("no children were returned"),
    }
}

fn query(r: Result<ListAction, CacheError>) -> String {
    match r {
        Ok(ListAction::List { query }) => query,
        _ => panic!("no listing was asked for"),
    }
}

fn failure(r: Result<ListAction, CacheError>) -> CacheError {
    match r {
        Err(e) => e,
        Ok(_) => panic!("the call did not fail"),
    }
}

#[test]
fn the_folder_type_is_the_one_of_the_remote_service() {
    assert_eq!(DRIVE_FOLDER_TYPE, "application/vnd.google-apps.folder");
    assert!(is_folder_type("application/vnd.google-apps.folder"));
    assert!(!is_folder_type("application/vnd.google-apps.document"));
    assert!(!is_folder_type(""));
}

#[test]
fn the_query_selects_untrashed_children() {
    assert_eq!(children_query("root"), "'root' in parents and trashed = false");
    assert_eq!(children_query("1AbC-x_9"), "'1AbC-x_9' in parents and trashed = false");
    assert_eq!(children_query(""), "'' in parents and trashed = false");
}

#[test]
fn an_unlisted_directory_asks_for_its_listing() {
    let (mut drive, root) = fresh_drive();
    let q = query(drive.get_children(root, ListEvent::Requested));
    assert_eq!(q, "'root' in parents and trashed = false");
    assert!(!drive.index().is_fully_loaded(root));
}

#[test]
fn a_listing_is_asked_for_once_and_answered_twice_alike() {
    let (mut drive, root) = fresh_drive();
    query(drive.get_children(root, ListEvent::Requested));
    let files = vec![file("d1", "Pics", DRIVE_FOLDER_TYPE), file("f1", "a.jpg", "image/jpeg")];
    let first = returned(drive.get_children(root, ListEvent::Listed(files)));
    assert_eq!(first.len(), 2);
    let second = returned(drive.get_children(root, ListEvent::Requested));
    assert_eq!(second, first);
    let third = returned(drive.get_children(root, ListEvent::Requested));
    assert_eq!(third, first);
}

#[test]
fn the_first_listing_wins() {
    let (mut drive, root) = fresh_drive();
    let first = returned(drive.get_children(root, ListEvent::Listed(vec![file("f1", "a.jpg", "image/jpeg")])));
    let late = returned(drive.get_children(root, ListEvent::Listed(vec![file("f2", "b.jpg", "image/jpeg")])));
    assert_eq!(late, first);
    assert_eq!(drive.index().resolve("f2"), None);
    assert_eq!(returned(drive.get_children(root, ListEvent::Failed)), first);
}

#[test]
fn listed_children_are_under_their_directory() {
    let (mut drive, root) = fresh_drive();
    let files = vec![file("d1", "Pics", DRIVE_FOLDER_TYPE), file("f1", "a.jpg", "image/jpeg")];
    let hs = returned(drive.get_children(root, ListEvent::Listed(files)));
    assert_ne!(hs[0], hs[1]);
    assert!(drive.contains(hs[0]) && drive.contains(hs[1]));
    assert_eq!(drive.get_parent(hs[0]), root);
    assert_eq!(drive.get_parent(hs[1]), root);
    assert_eq!(drive.get_name(hs[0]), "Pics");
    assert_eq!(drive.get_name(hs[1]), "a.jpg");
    assert!(drive.is_directory(hs[0]));
    assert!(!drive.is_directory(hs[1]));
    assert_eq!(query(drive.get_children(hs[0], ListEvent::Requested)), "'d1' in parents and trashed = false");
}

#[test]
fn children_of_a_leaf_fail_loudly() {
    let (mut drive, root) = fresh_drive();
    let hs = returned(drive.get_children(root, ListEvent::Listed(vec![file("f1", "a.jpg", "image/jpeg")])));
    assert!(!drive.is_directory(hs[0]));
    assert_eq!(failure(drive.get_children(hs[0], ListEvent::Requested)), CacheError::ProgrammingError);
    assert_eq!(
        failure(drive.get_children(hs[0], ListEvent::Listed(vec![file("f2", "b", "image/jpeg")]))),
        CacheError::ProgrammingError
    );
    assert_eq!(failure(drive.get_children(hs[0], ListEvent::Failed)), CacheError::ProgrammingError);
    assert_eq!(drive.index().resolve("f2"), None);
}

#[test]
fn children_of_an_unknown_handle_fail_loudly() {
    let (mut drive, _) = fresh_drive();
    assert!(!drive.contains(9999));
    assert_eq!(failure(drive.get_children(9999, ListEvent::Requested)), CacheError::ProgrammingError);
}

#[test]
fn a_remote_failure_is_reported_and_the_listing_asked_for_again() {
    let (mut drive, root) = fresh_drive();
    query(drive.get_children(root, ListEvent::Requested));
    assert_eq!(failure(drive.get_children(root, ListEvent::Failed)), CacheError::RemoteFailure);
    assert!(!drive.index().is_fully_loaded(root));
    assert_eq!(query(drive.get_children(root, ListEvent::Requested)), "'root' in parents and trashed = false");
}

#[test]
fn cleared_children_are_listed_anew() {
    let mut index = Index::open(":memory:").unwrap();
    let root = index.resolve("root").unwrap();
    let first = index.add_children(root, &vec![file("f1", "a.jpg", "image/jpeg")]).unwrap();
    index.clear_children(root);
    let mut drive = GoogleDrive::with_index(index);
    query(drive.get_children(root, ListEvent::Requested));
    let files = vec![file("f1", "a.jpg", "image/jpeg"), file("f2", "b.jpg", "image/jpeg")];
    let second = returned(drive.get_children(root, ListEvent::Listed(files)));
    assert_eq!(second.len(), 2);
    assert_eq!(second[0], first[0]);
    assert_ne!(second[1], first[0]);
}
