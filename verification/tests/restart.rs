use photoman_core::error::CacheError;
use photoman_core::index::Index;
use photoman_core::remote::{RemoteFile, DRIVE_FOLDER_TYPE};

fn file(remote_id: &str, name: &str, kind: &str) -> RemoteFile {
    RemoteFile { remote_id: remote_id.to_string(), name: name.to_string(), kind: kind.to_string() }
}

// A database that lives in memory for as long as the returned connection
// is open, and that every connection to the same name shares.
fn shared(name: &str) -> (String, rusqlite::Connection) {
    let uri = format!("file:{}?mode=memory&cache=shared", name);
    let keeper = rusqlite::Connection::open(&uri).unwrap();
    (uri, keeper)
}

#[test]
fn a_reopened_store_has_the_same_tree() {
    let (uri, _keeper) = shared("same_tree");
    let (root, dirs, leaves) = {
        let mut index = Index::open(&uri).unwrap();
        let root = index.resolve("root").unwrap();
        let dirs = index
            .add_children(root, &vec![file("d1", "Pics", DRIVE_FOLDER_TYPE), file("d2", "Empty", DRIVE_FOLDER_TYPE)])
            .unwrap();
        let leaves = index
            .add_children(dirs[0], &vec![file("f1", "a.jpg", "image/jpeg"), file("f2", "b.nef", "image/x-nikon-nef")])
            .unwrap();
        assert_eq!(index.add_children(dirs[1], &vec![]), Ok(vec![]));
        assert_eq!(index.add_loaded_photo(leaves[0], "cache/4.jpg"), Ok(()));
        (root, dirs, leaves)
    };
    let index = Index::open(&uri).unwrap();
    assert_eq!(index.resolve("root"), Some(root));
    assert_eq!(index.resolve("d1"), Some(dirs[0]));
    assert_eq!(index.resolve("d2"), Some(dirs[1]));
    assert_eq!(index.resolve("f1"), Some(leaves[0]));
    assert_eq!(index.resolve("f2"), Some(leaves[1]));
    assert_eq!(index.get_children(root), Ok(dirs.clone()));
    assert_eq!(index.get_children(dirs[0]), Ok(leaves.clone()));
    assert_eq!(index.get_children(dirs[1]), Ok(vec![]));
    assert!(index.is_fully_loaded(leaves[0]));
    assert_eq!(index.get_photo_path(leaves[0]), "cache/4.jpg");
    assert!(!index.is_fully_loaded(leaves[1]));
    assert_eq!(index.get_name(leaves[1]), "b.nef");
    assert_eq!(index.get_drive_type(leaves[1]), "image/x-nikon-nef");
    assert_eq!(index.get_parent(leaves[1]), dirs[0]);
    assert!(index.is_directory(dirs[1]));
    assert!(!index.is_directory(leaves[0]));
}

#[test]
fn a_reopened_store_makes_no_second_root() {
    let (uri, keeper) = shared("one_root");
    let root = Index::open(&uri).unwrap().resolve("root").unwrap();
    let again = Index::open(&uri).unwrap();
    assert_eq!(again.resolve("root"), Some(root));
    let rows: i64 = keeper.query_row("SELECT COUNT(*) FROM entries", (), |r| r.get(0)).unwrap();
    assert_eq!(rows, 1);
}

#[test]
fn an_unlisted_directory_stays_unloaded_across_a_restart() {
    let (uri, _keeper) = shared("unloaded");
    let root = Index::open(&uri).unwrap().resolve("root").unwrap();
    let index = Index::open(&uri).unwrap();
    assert!(!index.is_fully_loaded(root));
}

#[test]
fn cleared_children_come_back_with_a_restart() {
    let (uri, _keeper) = shared("cleared");
    let (root, hs) = {
        let mut index = Index::open(&uri).unwrap();
        let root = index.resolve("root").unwrap();
        let hs = index.add_children(root, &vec![file("f1", "a.jpg", "image/jpeg")]).unwrap();
        index.clear_children(root);
        (root, hs)
    };
    let index = Index::open(&uri).unwrap();
    assert_eq!(index.get_children(root), Ok(hs));
}

#[test]
fn the_table_holds_what_was_recorded() {
    let (uri, keeper) = shared("columns");
    let mut index = Index::open(&uri).unwrap();
    let root = index.resolve("root").unwrap();
    let hs = index
        .add_children(root, &vec![file("d1", "Pics", DRIVE_FOLDER_TYPE), file("f1", "a.jpg", "image/jpeg")])
        .unwrap();
    index.add_loaded_photo(hs[1], "cache/3.jpg").unwrap();
    let children: String = keeper
        .query_row("SELECT children FROM entries WHERE id = ?1", (root,), |r| r.get(0))
        .unwrap();
    assert_eq!(children, format!("{},{}", hs[0], hs[1]));
    let (name, drive_id, drive_type, parent, flag, path): (String, String, String, u32, u32, String) = keeper
        .query_row(
            "SELECT name, drive_id, drive_type, parent, is_directory, photo_path FROM entries WHERE id = ?1",
            (hs[1],),
            |r| Ok((r.get(0)?, r.get(1)?, r.get(2)?, r.get(3)?, r.get(4)?, r.get(5)?)),
        )
        .unwrap();
    assert_eq!(name, "a.jpg");
    assert_eq!(drive_id, "f1");
    assert_eq!(drive_type, "image/jpeg");
    assert_eq!(parent, root);
    assert_eq!(flag, 0);
    assert_eq!(path, "cache/3.jpg");
    let flag: u32 = keeper
        .query_row("SELECT is_directory FROM entries WHERE id = ?1", (hs[0],), |r| r.get(0))
        .unwrap();
    assert_eq!(flag, 1);
}

#[test]
fn a_failed_listing_leaves_the_tree_and_the_table_as_they_were() {
    let (uri, keeper) = shared("rolled_back");
    let mut index = Index::open(&uri).unwrap();
    let root = index.resolve("root").unwrap();
    // Without the row of the root the children cannot be written.
    keeper.execute("DELETE FROM entries WHERE id = ?1", (root,)).unwrap();
    let r = index.add_children(root, &vec![file("f1", "a.jpg", "image/jpeg")]);
    assert_eq!(r, Err(CacheError::PersistenceFailure));
    assert!(!index.is_fully_loaded(root));
    assert_eq!(index.resolve("f1"), None);
    let rows: i64 = keeper.query_row("SELECT COUNT(*) FROM entries", (), |r| r.get(0)).unwrap();
    assert_eq!(rows, 0);
}

#[test]
fn a_content_path_without_its_row_is_not_committed() {
    let (uri, keeper) = shared("no_row");
    let mut index = Index::open(&uri).unwrap();
    let root = index.resolve("root").unwrap();
    let hs = index.add_children(root, &vec![file("f1", "a.jpg", "image/jpeg")]).unwrap();
    keeper.execute("DELETE FROM entries WHERE id = ?1", (hs[0],)).unwrap();
    assert_eq!(index.add_loaded_photo(hs[0], "cache/2.jpg"), Err(CacheError::PersistenceFailure));
    assert!(!index.is_fully_loaded(hs[0]));
}

#[test]
fn a_table_that_is_no_tree_is_refused() {
    let (uri, keeper) = shared("no_tree");
    drop(Index::open(&uri).unwrap());
    keeper
        .execute(
            "INSERT INTO entries (name, drive_id, drive_type, parent, is_directory) VALUES ('again', 'root', 'x', 1, 0)",
            (),
        )
        .unwrap();
    assert_eq!(Index::open(&uri).err(), Some(CacheError::PersistenceFailure));
}

#[test]
fn a_children_column_that_is_no_text_means_not_loaded() {
    let (uri, keeper) = shared("no_text");
    let root = Index::open(&uri).unwrap().resolve("root").unwrap();
    keeper.execute("UPDATE entries SET children = x'00ff' WHERE id = ?1", (root,)).unwrap();
    let index = Index::open(&uri).unwrap();
    assert!(!index.is_fully_loaded(root));
}

#[test]
fn a_children_column_that_is_no_list_is_restored_as_unknown() {
    let (uri, keeper) = shared("no_list");
    let root = Index::open(&uri).unwrap().resolve("root").unwrap();
    keeper.execute("UPDATE entries SET children = '2,abc' WHERE id = ?1", (root,)).unwrap();
    let index = Index::open(&uri).unwrap();
    assert!(index.contains(root));
    assert!(!index.is_fully_loaded(root));
    assert_eq!(index.get_children(root), Err(CacheError::ProgrammingError));
}

#[test]
fn a_repeated_id_is_written_once_to_the_children_column() {
    let (uri, keeper) = shared("written_once");
    let mut index = Index::open(&uri).unwrap();
    let root = index.resolve("root").unwrap();
    let hs = index
        .add_children(root, &vec![file("f1", "a", "image/jpeg"), file("f1", "a", "image/jpeg")])
        .unwrap();
    let children: String = keeper
        .query_row("SELECT children FROM entries WHERE id = ?1", (root,), |r| r.get(0))
        .unwrap();
    assert_eq!(children, format!("{}", hs[0]));
    drop(index);
    assert_eq!(Index::open(&uri).unwrap().get_children(root), Ok(hs));
}

#[test]
fn handles_are_the_row_numbers_of_the_table() {
    let (uri, keeper) = shared("row_numbers");
    let mut index = Index::open(&uri).unwrap();
    let root = index.resolve("root").unwrap();
    index.add_children(root, &vec![file("d1", "Pics", DRIVE_FOLDER_TYPE), file("f1", "a.jpg", "image/jpeg")]).unwrap();
    for remote_id in ["root", "d1", "f1"] {
        let row: u32 = keeper
            .query_row("SELECT id FROM entries WHERE drive_id = ?1", (remote_id,), |r| r.get(0))
            .unwrap();
        assert_eq!(index.resolve(remote_id), Some(row));
    }
}

#[test]
fn a_listing_can_be_recorded_after_one_that_failed() {
    let (uri, keeper) = shared("after_failure");
    let mut index = Index::open(&uri).unwrap();
    let root = index.resolve("root").unwrap();
    keeper.execute("DELETE FROM entries WHERE id = ?1", (root,)).unwrap();
    let r = index.add_children(root, &vec![file("f1", "a.jpg", "image/jpeg")]);
    assert_eq!(r, Err(CacheError::PersistenceFailure));
    keeper
        .execute(
            "INSERT INTO entries (id, name, drive_id, drive_type, parent, is_directory) VALUES (?1, 'root', 'root', ?2, 1, 1)",
            (root, DRIVE_FOLDER_TYPE),
        )
        .unwrap();
    let hs = index.add_children(root, &vec![file("f1", "a.jpg", "image/jpeg")]).unwrap();
    assert_eq!(hs.len(), 1);
    assert!(hs[0] > root);
    assert_eq!(index.get_children(root), Ok(hs));
}
