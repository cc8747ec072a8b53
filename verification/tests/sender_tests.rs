use dirsync::{
    build_scan_table, plan_write_requests, EntryType, FileMeta, RawEntry, SenderAction,
    SenderEngine, WsRequest, WsResponse,
};

fn raw(path: &str, t: EntryType, size: u64) -> RawEntry {
    RawEntry { path: path.to_string(), entry_type: t, file_size: size }
}

fn meta(rel: &str, t: EntryType, size: u64) -> FileMeta {
    FileMeta::new(rel.to_string(), t, size)
}

const MIB: usize = 1048576;

#[test]
fn chunking_covers_the_content_exactly() {
    // ceil(N/C) messages with offsets 0, C, 2C, ... whose payloads
    // concatenated rebuild the bytes.
    let m = meta("f.bin", EntryType::File, 10);
    let content: Vec<u8> = (0u8..=255).cycle().take(MIB + 3).collect();
    let reqs = plan_write_requests(&m, &content, MIB);
    assert_eq!(reqs.len(), 2);
    let mut rebuilt: Vec<u8> = Vec::new();
    let mut expected_offset = 0u64;
    for req in &reqs {
        match req {
            WsRequest::WriteFile(e) => {
                assert_eq!(e.rel_path(), "f.bin");
                assert_eq!(e.file_offset(), Some(expected_offset));
                let payload = e.file_content().unwrap();
                expected_offset += payload.len() as u64;
                rebuilt.extend_from_slice(payload);
            }
            _ => panic!("only WriteFile requests are planned"),
        }
    }
    assert_eq!(rebuilt, content);
}

#[test]
fn chunking_edge_sizes() {
    let m = meta("f.bin", EntryType::File, 0);
    assert_eq!(plan_write_requests(&m, &vec![], MIB).len(), 0);
    assert_eq!(plan_write_requests(&m, &vec![0; MIB], MIB).len(), 1);
    assert_eq!(plan_write_requests(&m, &vec![0; MIB + 1], MIB).len(), 2);
    assert_eq!(plan_write_requests(&m, &vec![1, 2, 3], 1).len(), 3);
}

#[test]
fn sender_session_for_two_files_and_a_directory() {
    // Root holds a.txt (5 bytes) and sub/b.txt (2 MiB).  The scan yields 3
    // entries; after ClearDirDone 3 creates go out; a.txt pumps exactly one
    // chunk at offset 0 and sub/b.txt exactly two, at offsets 0 and MiB.
    let raws = vec![
        raw("/src/a.txt", EntryType::File, 5),
        raw("/src/sub", EntryType::Dir, 0),
        raw("/src/sub/b.txt", EntryType::File, 2 * MIB as u64),
    ];
    let table = build_scan_table("/src", &raws, false);
    assert_eq!(table.len(), 3);
    let mut engine = SenderEngine::new(table);
    match engine.initial_request() {
        WsRequest::ClearDir(metas) => {
            let rels: Vec<&str> = metas.iter().map(|m| m.rel_path()).collect();
            assert_eq!(rels, vec!["a.txt", "sub", "sub/b.txt"]);
        }
        _ => panic!("the session opens with ClearDir"),
    }

    let acts = engine.on_response(&WsResponse::ClearDirDone(vec![]));
    assert_eq!(acts.len(), 3);
    for (act, rel) in acts.iter().zip(["a.txt", "sub", "sub/b.txt"]) {
        match act {
            SenderAction::SendRequest(WsRequest::CreateFile(m)) => assert_eq!(m.rel_path(), rel),
            _ => panic!("only creates follow ClearDirDone"),
        }
    }

    // A successful create for a regular file starts its content pump.
    let acts = engine.on_response(&WsResponse::CreateSuccess(meta("a.txt", EntryType::File, 5)));
    let (pump_meta, handle) = match &acts[..] {
        [SenderAction::PumpFile { meta, handle }] => (meta.clone(), handle.clone()),
        _ => panic!("a file create starts one pump"),
    };
    assert_eq!(handle, "/src/a.txt");
    let reqs = plan_write_requests(&pump_meta, &vec![7, 7, 7, 7, 7], MIB);
    assert_eq!(reqs.len(), 1);
    match &reqs[0] {
        WsRequest::WriteFile(e) => {
            assert_eq!(e.file_offset(), Some(0));
            assert_eq!(e.file_content().unwrap().len(), 5);
        }
        _ => panic!("pumps emit writes"),
    }

    let big = engine.on_response(&WsResponse::CreateSuccess(meta(
        "sub/b.txt",
        EntryType::File,
        2 * MIB as u64,
    )));
    let pump_meta = match &big[..] {
        [SenderAction::PumpFile { meta, .. }] => meta.clone(),
        _ => panic!("a file create starts one pump"),
    };
    let reqs = plan_write_requests(&pump_meta, &vec![0; 2 * MIB], MIB);
    assert_eq!(reqs.len(), 2);
    let offsets: Vec<u64> = reqs
        .iter()
        .map(|r| match r {
            WsRequest::WriteFile(e) => e.file_offset().unwrap(),
            _ => panic!("pumps emit writes"),
        })
        .collect();
    assert_eq!(offsets, vec![0, MIB as u64]);

    // Directory creates need no pump; failures and acknowledgements none.
    assert!(engine.on_response(&WsResponse::CreateSuccess(meta("sub", EntryType::Dir, 0))).is_empty());
    assert!(engine.on_response(&WsResponse::CreateFailed(meta("a.txt", EntryType::File, 5))).is_empty());
    assert!(engine.on_response(&WsResponse::WriteSuccess(meta("a.txt", EntryType::File, 5))).is_empty());
    assert!(engine.on_response(&WsResponse::WriteFailed(meta("a.txt", EntryType::File, 5))).is_empty());
    // A second ClearDirDone outside the opening phase is ignored.
    assert!(engine.on_response(&WsResponse::ClearDirDone(vec![])).is_empty());
}

#[test]
fn sender_skips_paths_the_receiver_kept() {
    // Paths reported undeletable get no CreateFile: their content must not
    // be resent.
    let raws = vec![
        raw("/src/a.txt", EntryType::File, 1),
        raw("/src/b.txt", EntryType::File, 2),
    ];
    let table = build_scan_table("/src", &raws, false);
    let mut engine = SenderEngine::new(table);
    let skip = vec![meta("a.txt", EntryType::File, 1)];
    let acts = engine.on_response(&WsResponse::ClearDirDone(skip));
    assert_eq!(acts.len(), 1);
    match &acts[0] {
        SenderAction::SendRequest(WsRequest::CreateFile(m)) => assert_eq!(m.rel_path(), "b.txt"),
        _ => panic!("only creates follow ClearDirDone"),
    }
}

#[test]
fn responses_before_clear_dir_done_are_suppressed() {
    // While awaiting ClearDirDone, every other response yields no action:
    // no CreateFile or WriteFile goes out before that response was read.
    let raws = vec![raw("/src/a.txt", EntryType::File, 5)];
    let table = build_scan_table("/src", &raws, false);
    let mut engine = SenderEngine::new(table);
    let early = engine.on_response(&WsResponse::CreateSuccess(meta("a.txt", EntryType::File, 5)));
    assert!(early.is_empty());
    assert!(engine.on_response(&WsResponse::WriteSuccess(meta("a.txt", EntryType::File, 5))).is_empty());
    // Once ClearDirDone has been read, the same response starts the pump.
    let creates = engine.on_response(&WsResponse::ClearDirDone(vec![]));
    assert_eq!(creates.len(), 1);
    let acts = engine.on_response(&WsResponse::CreateSuccess(meta("a.txt", EntryType::File, 5)));
    assert!(matches!(&acts[..], [SenderAction::PumpFile { .. }]));
}

#[test]
fn create_success_for_kept_path_pumps_nothing() {
    // Content is never resent for a path the receiver reported as
    // undeletable, even if a CreateSuccess arrives for it.
    let raws = vec![
        raw("/src/a.txt", EntryType::File, 1),
        raw("/src/b.txt", EntryType::File, 2),
    ];
    let table = build_scan_table("/src", &raws, false);
    let mut engine = SenderEngine::new(table);
    let skip = vec![meta("a.txt", EntryType::File, 1)];
    engine.on_response(&WsResponse::ClearDirDone(skip));
    let acts = engine.on_response(&WsResponse::CreateSuccess(meta("a.txt", EntryType::File, 1)));
    assert!(acts.is_empty());
    let acts = engine.on_response(&WsResponse::CreateSuccess(meta("b.txt", EntryType::File, 2)));
    assert!(matches!(&acts[..], [SenderAction::PumpFile { .. }]));
}

#[test]
fn create_success_for_unknown_path_pumps_nothing() {
    let table = build_scan_table("/src", &vec![raw("/src/a.txt", EntryType::File, 1)], false);
    let mut engine = SenderEngine::new(table);
    engine.on_response(&WsResponse::ClearDirDone(vec![]));
    let acts = engine.on_response(&WsResponse::CreateSuccess(meta("zz", EntryType::File, 1)));
    assert!(acts.is_empty());
}
