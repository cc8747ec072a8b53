use dirsync::{
    startup_plan, validate_port, AppError, DirState, EntryType, FileChunk, FileEntry, FileMeta,
    StartupAction, WsResponse,
};

fn meta(rel: &str, t: EntryType, size: u64) -> FileMeta {
    FileMeta::new(rel.to_string(), t, size)
}

fn write_entry(rel: &str, offset: u64, payload: Vec<u8>) -> FileEntry {
    FileEntry::new(
        meta(rel, EntryType::File, payload.len() as u64),
        Some(FileChunk::new(offset, payload)),
    )
}

#[test]
fn create_twice_truncates() {
    // Re-issuing CreateFile truncates rather than appends: after the second
    // create the file is empty again, whatever was written in between.
    let mut dir = DirState::new();
    dir.create(&meta("a.txt", EntryType::File, 5));
    let r = dir.write(&write_entry("a.txt", 0, vec![1, 2, 3, 4, 5]));
    assert!(matches!(r, WsResponse::WriteSuccess(_)));
    assert_eq!(dir.content_of("a.txt").unwrap(), &vec![1, 2, 3, 4, 5]);
    dir.create(&meta("a.txt", EntryType::File, 5));
    assert_eq!(dir.content_of("a.txt").unwrap().len(), 0);
}

#[test]
fn write_without_create_is_rejected() {
    // A WriteFile with no preceding successful CreateFile draws WriteFailed
    // and writes nothing anywhere.
    let mut dir = DirState::new();
    let r = dir.write(&write_entry("ghost.txt", 0, vec![9, 9]));
    assert!(matches!(r, WsResponse::WriteFailed(_)));
    assert!(dir.content_of("ghost.txt").is_none());
}

#[test]
fn write_without_chunk_is_rejected() {
    let mut dir = DirState::new();
    dir.create(&meta("a.txt", EntryType::File, 0));
    let entry = FileEntry::new(meta("a.txt", EntryType::File, 0), None);
    let r = dir.write(&entry);
    assert!(matches!(r, WsResponse::WriteFailed(_)));
    assert_eq!(dir.content_of("a.txt").unwrap().len(), 0);
}

#[test]
fn writes_land_at_their_offsets() {
    let mut dir = DirState::new();
    dir.create(&meta("a.txt", EntryType::File, 0));
    dir.write(&write_entry("a.txt", 0, vec![10, 11, 12]));
    dir.write(&write_entry("a.txt", 3, vec![13, 14]));
    assert_eq!(dir.content_of("a.txt").unwrap(), &vec![10, 11, 12, 13, 14]);
    // The carried offset is authoritative: an overwrite in place.
    dir.write(&write_entry("a.txt", 1, vec![99]));
    assert_eq!(dir.content_of("a.txt").unwrap(), &vec![10, 99, 12, 13, 14]);
}

#[test]
fn create_dir_is_idempotent() {
    let mut dir = DirState::new();
    let r1 = dir.create(&meta("sub", EntryType::Dir, 0));
    let r2 = dir.create(&meta("sub", EntryType::Dir, 0));
    assert!(matches!(r1, WsResponse::CreateSuccess(_)));
    assert!(matches!(r2, WsResponse::CreateSuccess(_)));
    assert!(dir.dir_exists("sub"));
}

#[test]
fn create_brings_ancestors_into_existence() {
    // Creating a directory ensures it and its ancestors exist; creating a
    // file ensures its parent directories exist.
    let mut dir = DirState::new();
    dir.create(&meta("a/b/c", EntryType::Dir, 0));
    assert!(dir.dir_exists("a"));
    assert!(dir.dir_exists("a/b"));
    assert!(dir.dir_exists("a/b/c"));
    dir.create(&meta("sub/deep/b.txt", EntryType::File, 0));
    assert!(dir.dir_exists("sub"));
    assert!(dir.dir_exists("sub/deep"));
    assert!(!dir.dir_exists("sub/deep/b.txt"));
    assert_eq!(dir.content_of("sub/deep/b.txt").unwrap().len(), 0);
}

#[test]
fn clear_preserves_only_the_marker() {
    // ClearDir removes every entry except the lock marker, whatever the
    // nesting depth of the paths.
    let mut dir = DirState::new();
    dir.create(&meta(".receiver.pid", EntryType::File, 0));
    dir.write(&write_entry(".receiver.pid", 0, vec![52, 50])); // the owner's pid
    dir.create(&meta("a.txt", EntryType::File, 0));
    dir.write(&write_entry("a.txt", 0, vec![1]));
    dir.create(&meta("sub", EntryType::Dir, 0));
    dir.create(&meta("sub/deep", EntryType::Dir, 0));
    dir.create(&meta("sub/deep/b.txt", EntryType::File, 0));
    let r = dir.clear(".receiver.pid");
    match r {
        WsResponse::ClearDirDone(undeletable) => assert!(undeletable.is_empty()),
        _ => panic!("wrong response"),
    }
    assert_eq!(dir.content_of(".receiver.pid").unwrap(), &vec![52, 50]);
    assert!(dir.content_of("a.txt").is_none());
    assert!(dir.content_of("sub/deep/b.txt").is_none());
    assert!(!dir.dir_exists("sub"));
    assert!(!dir.dir_exists("sub/deep"));
}

#[test]
fn startup_refuses_an_occupied_directory() {
    // A lock marker in the output directory is fatal: "directory in use",
    // and the plan binds no socket.
    let r = startup_plan(9000, "/out", true, true, true);
    match r {
        Err(AppError::DirInUse(d)) => assert_eq!(d, "/out"),
        _ => panic!("expected a directory-in-use error"),
    }
}

#[test]
fn startup_checks_port_and_directory() {
    assert!(matches!(
        startup_plan(80, "/out", false, false, false),
        Err(AppError::SystemReservedPort(80))
    ));
    assert!(matches!(
        startup_plan(9000, "/out", true, false, false),
        Err(AppError::InvalidDir(_))
    ));
    assert_eq!(
        startup_plan(9000, "/out", false, false, false).unwrap(),
        vec![StartupAction::CreateOutputDir, StartupAction::WriteMarker, StartupAction::Bind]
    );
    assert_eq!(
        startup_plan(9000, "/out", true, true, false).unwrap(),
        vec![StartupAction::WriteMarker, StartupAction::Bind]
    );
    assert!(validate_port(1024).is_ok());
    assert!(matches!(validate_port(1023), Err(AppError::SystemReservedPort(1023))));
}
