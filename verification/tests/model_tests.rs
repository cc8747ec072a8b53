use dirsync::{EntryType, FileChunk, FileEntry, FileMeta, WsRequest, WsResponse};

#[test]
fn test_file_meta() {
    let file_meta = FileMeta::new("test.txt".to_string(), EntryType::File, 1024);
    assert_eq!(file_meta.rel_path(), "test.txt");
    assert_eq!(file_meta.is_file(), true);
    assert_eq!(file_meta.is_dir(), false);
    assert_eq!(file_meta.is_sym_link(), false);
    assert_eq!(file_meta.file_size(), 1024);
}

#[test]
fn test_file_chunk() {
    let file_chunk = FileChunk::new(0, vec![1, 2, 3]);
    assert_eq!(file_chunk.offset(), 0);
    assert_eq!(file_chunk.payload(), &[1, 2, 3]);
}

#[test]
fn test_file_entry() {
    let payload = vec![1, 2, 3u8];
    let file_meta = FileMeta::new("test.txt".to_string(), EntryType::File, 1024);
    let file_chunk = FileChunk::new(0, payload.clone());
    let file_entry = FileEntry::new(file_meta.clone(), Some(file_chunk.clone()));
    assert_eq!(file_entry.file_offset(), Some(0));
    assert_eq!(file_entry.file_content(), Some(payload.as_slice()));
    assert_eq!(file_entry.rel_path(), "test.txt");
    assert_eq!(file_entry.is_file(), true);
    assert_eq!(file_entry.is_dir(), false);
    assert_eq!(file_entry.is_sym_link(), false);
    assert_eq!(file_entry.file_meta(), file_meta);
}

#[test]
fn test_ws_request() {
    let file_meta = FileMeta::new("test.txt".to_string(), EntryType::File, 1024);
    let file_chunk = FileChunk::new(0, vec![1, 2, 3]);
    let file_entry = FileEntry::new(file_meta.clone(), Some(file_chunk.clone()));
    let message = WsRequest::new_create_file_message(file_meta.clone());
    assert_eq!(
        message,
        "{\"CreateFile\":{\"rel_path\":\"test.txt\",\"entry_type\":\"File\",\"file_size\":1024}}"
    );
    let message = WsRequest::new_write_file_message(file_entry.clone());
    assert_eq!(
        message,
        "{\"WriteFile\":{\"file_meta\":{\"rel_path\":\"test.txt\",\"entry_type\":\"File\",\"file_size\":1024},\"file_chunk\":{\"offset\":0,\"payload\":[1,2,3]}}}"
    );
}

#[test]
fn test_ws_response() {
    let file_meta = FileMeta::new("test.txt".to_string(), EntryType::File, 1024);
    let meta_json = "{\"rel_path\":\"test.txt\",\"entry_type\":\"File\",\"file_size\":1024}";
    let message = WsResponse::new_create_success_message(file_meta.clone());
    assert_eq!(message, format!("{{\"CreateSuccess\":{}}}", meta_json));
    let message = WsResponse::new_create_failed_message(file_meta.clone());
    assert_eq!(message, format!("{{\"CreateFailed\":{}}}", meta_json));
    let message = WsResponse::new_write_success_message(file_meta.clone());
    assert_eq!(message, format!("{{\"WriteSuccess\":{}}}", meta_json));
    let message = WsResponse::new_write_failed_message(file_meta.clone());
    assert_eq!(message, format!("{{\"WriteFailed\":{}}}", meta_json));
    let message = WsResponse::new_clear_dir_done_message(vec![file_meta.clone()]);
    assert_eq!(message, format!("{{\"ClearDirDone\":[{}]}}", meta_json));
}

#[test]
fn frames_are_valid_json() {
    // The wire format must agree with a standard JSON parser: every frame
    // parses, and parses to the same value as the expected text.
    let file_meta = FileMeta::new("a b\\c\"d\n".to_string(), EntryType::SymLink, 7);
    let message = WsRequest::new_create_file_message(file_meta);
    let parsed: serde_json::Value = serde_json::from_str(&message).unwrap();
    let expected: serde_json::Value = serde_json::from_str(
        "{\"CreateFile\":{\"rel_path\":\"a b\\\\c\\\"d\\n\",\"entry_type\":\"SymLink\",\"file_size\":7}}",
    )
    .unwrap();
    assert_eq!(parsed, expected);
}
