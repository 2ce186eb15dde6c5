use photoman_core::drive::GoogleDrive;
use photoman_core::error::CacheError;
use photoman_core::index::Index;
use photoman_core::photo::{
    cache_path, extract_args, extract_event, fetch_event, photo_step, preview_path, PhotoAction,
    PhotoEvent, PhotoStage, EXTRACTOR, RAW_PHOTO_TYPE,
};
use photoman_core::remote::{RemoteFile, FETCH_SCOPE};

fn file(remote_id: &str, name: &str, kind: &str) -> RemoteFile {
    RemoteFile { remote_id: remote_id.to_string(), name: name.to_string(), kind: kind.to_string() }
}

// A drive whose root holds one leaf; gives the handle of the leaf.
fn drive_with_leaf(name: &str, kind: &str) -> (GoogleDrive, u32) {
    let mut index = Index::open(":memory:").unwrap();
    let root = index.resolve("root").unwrap();
    let hs = index.add_children(root, &vec![file("f1", name, kind)]).unwrap();
    (GoogleDrive::with_index(index), hs[0])
}

fn done_path(step: Result<(PhotoStage, PhotoAction), CacheError>) -> String {
    match step {
        Ok((PhotoStage::Loaded, PhotoAction::Done { path })) => path,
        _ => panic!("the pipeline is not done"),
    }
}

fn failure(step: Result<(PhotoStage, PhotoAction), CacheError>) -> CacheError {
    match step {
        Err(e) => e,
        Ok(_) => panic!("the step did not fail"),
    }
}

#[test]
fn cache_path_is_made_of_handle_and_extension() {
    assert_eq!(cache_path(12, "nef"), "cache/12.nef");
    assert_eq!(cache_path(0, "jpg"), "cache/0.jpg");
    assert_eq!(cache_path(4294967295, ""), "cache/4294967295.");
}

#[test]
fn preview_path_is_what_the_extractor_writes() {
    assert_eq!(preview_path(12), "cache/12-preview3.jpg");
}

#[test]
fn extract_args_name_the_third_preview_and_the_cache() {
    assert_eq!(extract_args("cache/12.nef"), vec!["-ep3", "-l", "./cache/", "cache/12.nef"]);
}

#[test]
fn a_request_has_the_content_fetched() {
    let ext = Some("jpeg".to_string());
    match photo_step(3, "f1", "image/jpeg", &ext, PhotoStage::Unloaded, PhotoEvent::Requested) {
        Ok((PhotoStage::Fetching, PhotoAction::Fetch { remote_id, scope, path })) => {
            assert_eq!(remote_id, "f1");
            assert_eq!(scope, FETCH_SCOPE);
            assert_eq!(scope, "https://www.googleapis.com/auth/drive");
            assert_eq!(path, "cache/3.jpeg");
        },
        _ => panic!("no fetch was planned"),
    }
}

#[test]
fn fetched_plain_content_is_committed_as_it_is() {
    let ext = Some("png".to_string());
    match photo_step(3, "f1", "image/png", &ext, PhotoStage::Fetching, PhotoEvent::Fetched) {
        Ok((PhotoStage::Plain, PhotoAction::Commit { path })) => assert_eq!(path, "cache/3.png"),
        _ => panic!("no commit was planned"),
    }
}

#[test]
fn a_fetched_raw_photo_has_its_preview_extracted() {
    let ext = Some("nef".to_string());
    match photo_step(3, "f1", RAW_PHOTO_TYPE, &ext, PhotoStage::Fetching, PhotoEvent::Fetched) {
        Ok((PhotoStage::RawWithPreview, PhotoAction::Extract { program, args, preview, path })) => {
            assert_eq!(program, EXTRACTOR);
            assert_eq!(program, "/usr/local/bin/exiv2");
            assert_eq!(args, vec!["-ep3", "-l", "./cache/", "cache/3.nef"]);
            assert_eq!(preview, "cache/3-preview3.jpg");
            assert_eq!(path, "cache/3.jpg");
        },
        _ => panic!("no extraction was planned"),
    }
}

#[test]
fn an_extracted_preview_is_committed() {
    let ext = Some("nef".to_string());
    match photo_step(3, "f1", RAW_PHOTO_TYPE, &ext, PhotoStage::RawWithPreview, PhotoEvent::Extracted) {
        Ok((PhotoStage::RawWithPreview, PhotoAction::Commit { path })) => assert_eq!(path, "cache/3.jpg"),
        _ => panic!("no commit was planned"),
    }
    match photo_step(3, "f1", RAW_PHOTO_TYPE, &None, PhotoStage::RawWithPreview, PhotoEvent::Extracted) {
        Ok((PhotoStage::RawWithPreview, PhotoAction::Commit { path })) => assert_eq!(path, "cache/3.jpg"),
        _ => panic!("no commit was planned"),
    }
}

#[test]
fn a_failure_ends_the_pipeline_with_itself() {
    let ext = Some("nef".to_string());
    for stage in [PhotoStage::Unloaded, PhotoStage::Fetching, PhotoStage::Plain, PhotoStage::RawWithPreview, PhotoStage::Loaded] {
        for e in [CacheError::RemoteFailure, CacheError::LocalIoFailure, CacheError::ConversionFailure, CacheError::PersistenceFailure, CacheError::ProgrammingError] {
            assert_eq!(failure(photo_step(3, "f1", RAW_PHOTO_TYPE, &ext, stage, PhotoEvent::Failed(e))), e);
        }
    }
}

#[test]
fn a_name_without_extension_gives_no_cache_file() {
    assert_eq!(
        failure(photo_step(3, "f1", "image/jpeg", &None, PhotoStage::Unloaded, PhotoEvent::Requested)),
        CacheError::LocalIoFailure
    );
    assert_eq!(
        failure(photo_step(3, "f1", "image/jpeg", &None, PhotoStage::Fetching, PhotoEvent::Fetched)),
        CacheError::LocalIoFailure
    );
}

#[test]
fn an_event_out_of_turn_is_a_programming_error() {
    let ext = Some("jpg".to_string());
    let out_of_turn = [
        (PhotoStage::Unloaded, PhotoEvent::Fetched),
        (PhotoStage::Unloaded, PhotoEvent::Extracted),
        (PhotoStage::Fetching, PhotoEvent::Requested),
        (PhotoStage::Fetching, PhotoEvent::Extracted),
        (PhotoStage::Plain, PhotoEvent::Requested),
        (PhotoStage::Plain, PhotoEvent::Fetched),
        (PhotoStage::Plain, PhotoEvent::Extracted),
        (PhotoStage::RawWithPreview, PhotoEvent::Requested),
        (PhotoStage::RawWithPreview, PhotoEvent::Fetched),
        (PhotoStage::Loaded, PhotoEvent::Requested),
        (PhotoStage::Loaded, PhotoEvent::Fetched),
        (PhotoStage::Loaded, PhotoEvent::Extracted),
    ];
    for (stage, event) in out_of_turn {
        assert_eq!(failure(photo_step(3, "f1", "image/jpeg", &ext, stage, event)), CacheError::ProgrammingError);
    }
}

#[test]
fn a_raw_photo_is_loaded_only_once_its_preview_is_committed() {
    let (mut drive, h) = drive_with_leaf("DSC_0001.nef", "image/x-nikon-nef");
    match drive.get_photo_path(h, PhotoStage::Unloaded, PhotoEvent::Requested) {
        Ok((PhotoStage::Fetching, PhotoAction::Fetch { remote_id, scope, path })) => {
            assert_eq!(remote_id, "f1");
            assert_eq!(scope, "https://www.googleapis.com/auth/drive");
            assert_eq!(path, format!("cache/{}.nef", h));
        },
        _ => panic!("no fetch was planned"),
    }
    assert!(!drive.index().is_fully_loaded(h));
    match drive.get_photo_path(h, PhotoStage::Fetching, PhotoEvent::Fetched) {
        Ok((PhotoStage::RawWithPreview, PhotoAction::Extract { program, args, preview, path })) => {
            assert_eq!(program, "/usr/local/bin/exiv2");
            assert_eq!(args, vec!["-ep3".to_string(), "-l".to_string(), "./cache/".to_string(), format!("cache/{}.nef", h)]);
            assert_eq!(preview, format!("cache/{}-preview3.jpg", h));
            assert_eq!(path, format!("cache/{}.jpg", h));
        },
        _ => panic!("no extraction was planned"),
    }
    assert!(!drive.index().is_fully_loaded(h));
    let path = done_path(drive.get_photo_path(h, PhotoStage::RawWithPreview, PhotoEvent::Extracted));
    assert_eq!(path, format!("cache/{}.jpg", h));
    assert!(drive.index().is_fully_loaded(h));
    assert_eq!(drive.index().get_photo_path(h), format!("cache/{}.jpg", h));
}

#[test]
fn plain_content_is_loaded_once_it_is_fetched() {
    let (mut drive, h) = drive_with_leaf("holiday.final.JPG", "image/jpeg");
    match drive.get_photo_path(h, PhotoStage::Unloaded, PhotoEvent::Requested) {
        Ok((PhotoStage::Fetching, PhotoAction::Fetch { path, .. })) => {
            assert_eq!(path, format!("cache/{}.JPG", h));
        },
        _ => panic!("no fetch was planned"),
    }
    assert!(!drive.index().is_fully_loaded(h));
    let path = done_path(drive.get_photo_path(h, PhotoStage::Fetching, PhotoEvent::Fetched));
    assert_eq!(path, format!("cache/{}.JPG", h));
    assert!(drive.index().is_fully_loaded(h));
    assert_eq!(drive.index().get_photo_path(h), path);
}

#[test]
fn a_loaded_leaf_answers_from_the_cache_whatever_is_asked() {
    let (mut drive, h) = drive_with_leaf("a.jpg", "image/jpeg");
    drive.get_photo_path(h, PhotoStage::Unloaded, PhotoEvent::Requested).unwrap();
    let path = done_path(drive.get_photo_path(h, PhotoStage::Fetching, PhotoEvent::Fetched));
    assert_eq!(done_path(drive.get_photo_path(h, PhotoStage::Unloaded, PhotoEvent::Requested)), path);
    assert_eq!(done_path(drive.get_photo_path(h, PhotoStage::Fetching, PhotoEvent::Fetched)), path);
    assert_eq!(
        done_path(drive.get_photo_path(h, PhotoStage::Fetching, PhotoEvent::Failed(CacheError::RemoteFailure))),
        path
    );
}

#[test]
fn a_failed_fetch_leaves_the_leaf_unloaded() {
    let (mut drive, h) = drive_with_leaf("a.jpg", "image/jpeg");
    drive.get_photo_path(h, PhotoStage::Unloaded, PhotoEvent::Requested).unwrap();
    let r = drive.get_photo_path(h, PhotoStage::Fetching, PhotoEvent::Failed(CacheError::RemoteFailure));
    assert_eq!(failure(r), CacheError::RemoteFailure);
    let r = drive.get_photo_path(h, PhotoStage::Fetching, PhotoEvent::Failed(CacheError::LocalIoFailure));
    assert_eq!(failure(r), CacheError::LocalIoFailure);
    assert!(!drive.index().is_fully_loaded(h));
}

#[test]
fn a_failed_extraction_leaves_the_leaf_unloaded() {
    let (mut drive, h) = drive_with_leaf("a.nef", "image/x-nikon-nef");
    drive.get_photo_path(h, PhotoStage::Unloaded, PhotoEvent::Requested).unwrap();
    drive.get_photo_path(h, PhotoStage::Fetching, PhotoEvent::Fetched).unwrap();
    let r = drive.get_photo_path(h, PhotoStage::RawWithPreview, PhotoEvent::Failed(CacheError::ConversionFailure));
    assert_eq!(failure(r), CacheError::ConversionFailure);
    assert!(!drive.index().is_fully_loaded(h));
}

#[test]
fn a_leaf_whose_name_has_no_extension_cannot_be_cached() {
    let (mut drive, h) = drive_with_leaf("README", "text/plain");
    let r = drive.get_photo_path(h, PhotoStage::Unloaded, PhotoEvent::Requested);
    assert_eq!(failure(r), CacheError::LocalIoFailure);
    let (mut drive, h) = drive_with_leaf(".hidden", "text/plain");
    let r = drive.get_photo_path(h, PhotoStage::Unloaded, PhotoEvent::Requested);
    assert_eq!(failure(r), CacheError::LocalIoFailure);
}

#[test]
fn the_content_path_of_a_directory_is_a_programming_error() {
    let (mut drive, _) = drive_with_leaf("a.jpg", "image/jpeg");
    let root = drive.index().resolve("root").unwrap();
    let r = drive.get_photo_path(root, PhotoStage::Unloaded, PhotoEvent::Requested);
    assert_eq!(failure(r), CacheError::ProgrammingError);
    let r = drive.get_photo_path(9999, PhotoStage::Unloaded, PhotoEvent::Requested);
    assert_eq!(failure(r), CacheError::ProgrammingError);
}

#[test]
fn an_event_out_of_turn_changes_nothing() {
    let (mut drive, h) = drive_with_leaf("a.jpg", "image/jpeg");
    let r = drive.get_photo_path(h, PhotoStage::Unloaded, PhotoEvent::Fetched);
    assert_eq!(failure(r), CacheError::ProgrammingError);
    let r = drive.get_photo_path(h, PhotoStage::Plain, PhotoEvent::Extracted);
    assert_eq!(failure(r), CacheError::ProgrammingError);
    assert!(!drive.index().is_fully_loaded(h));
}

#[test]
fn a_fetch_that_was_not_delivered_is_a_remote_failure() {
    assert_eq!(fetch_event(false, false), PhotoEvent::Failed(CacheError::RemoteFailure));
    assert_eq!(fetch_event(false, true), PhotoEvent::Failed(CacheError::RemoteFailure));
}

#[test]
fn a_fetch_that_was_not_written_is_a_local_failure() {
    assert_eq!(fetch_event(true, false), PhotoEvent::Failed(CacheError::LocalIoFailure));
    assert_eq!(fetch_event(true, true), PhotoEvent::Fetched);
}

#[test]
fn an_extractor_that_failed_or_left_nothing_is_a_conversion_failure() {
    assert_eq!(extract_event(false, false, false), PhotoEvent::Failed(CacheError::ConversionFailure));
    assert_eq!(extract_event(false, true, true), PhotoEvent::Failed(CacheError::ConversionFailure));
    assert_eq!(extract_event(true, false, false), PhotoEvent::Failed(CacheError::ConversionFailure));
}

#[test]
fn an_output_that_was_not_renamed_is_a_local_failure() {
    assert_eq!(extract_event(true, true, false), PhotoEvent::Failed(CacheError::LocalIoFailure));
    assert_eq!(extract_event(true, true, true), PhotoEvent::Extracted);
}

#[test]
fn the_cache_file_bears_the_extension_of_the_name() {
    for (name, ext) in [("a.jpg", "jpg"), ("a.b.PNG", "PNG"), ("dir.x/photo.nef", "nef"), ("trailing.", "")] {
        let (mut drive, h) = drive_with_leaf(name, "image/jpeg");
        match drive.get_photo_path(h, PhotoStage::Unloaded, PhotoEvent::Requested) {
            Ok((PhotoStage::Fetching, PhotoAction::Fetch { path, .. })) => {
                assert_eq!(path, format!("cache/{}.{}", h, ext));
            },
            _ => panic!("no fetch was planned for {:?}", name),
        }
    }
}
