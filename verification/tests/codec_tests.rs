use dirsync::{
    decode_request, decode_response, encode_request, encode_response, EntryType, FileChunk,
    FileEntry, FileMeta, WsRequest, WsResponse,
};

fn chars(s: &str) -> Vec<char> {
    s.chars().collect()
}

fn text(v: &[char]) -> String {
    v.iter().collect()
}

fn meta(rel: &str, t: EntryType, size: u64) -> FileMeta {
    FileMeta::new(rel.to_string(), t, size)
}

#[test]
fn round_trip_create_file() {
    let req = WsRequest::CreateFile(meta("sub/b.txt", EntryType::File, 2097152));
    let frame = encode_request(&req);
    let back = decode_request(&frame).unwrap();
    match back {
        WsRequest::CreateFile(m) => {
            assert_eq!(m.rel_path(), "sub/b.txt");
            assert!(m.is_file());
            assert_eq!(m.file_size(), 2097152);
        }
        _ => panic!("wrong variant"),
    }
}

#[test]
fn round_trip_write_file_with_chunk() {
    let m = meta("a.txt", EntryType::File, 5);
    let entry = FileEntry::new(m, Some(FileChunk::new(1048576, vec![0, 1, 255, 128, 7])));
    let req = WsRequest::WriteFile(entry);
    let frame = encode_request(&req);
    assert_eq!(
        text(&frame),
        "{\"WriteFile\":{\"file_meta\":{\"rel_path\":\"a.txt\",\"entry_type\":\"File\",\"file_size\":5},\"file_chunk\":{\"offset\":1048576,\"payload\":[0,1,255,128,7]}}}"
    );
    let back = decode_request(&frame).unwrap();
    match back {
        WsRequest::WriteFile(e) => {
            assert_eq!(e.rel_path(), "a.txt");
            assert_eq!(e.file_offset(), Some(1048576));
            assert_eq!(e.file_content(), Some(&[0u8, 1, 255, 128, 7][..]));
        }
        _ => panic!("wrong variant"),
    }
}

#[test]
fn round_trip_write_file_without_chunk() {
    let req = WsRequest::WriteFile(FileEntry::new(meta("d", EntryType::Dir, 0), None));
    let frame = encode_request(&req);
    assert!(text(&frame).contains("\"file_chunk\":null"));
    let back = decode_request(&frame).unwrap();
    match back {
        WsRequest::WriteFile(e) => {
            assert!(e.is_dir());
            assert_eq!(e.file_offset(), None);
            assert_eq!(e.file_content(), None);
        }
        _ => panic!("wrong variant"),
    }
}

#[test]
fn round_trip_clear_dir() {
    let req = WsRequest::ClearDir(vec![
        meta("a.txt", EntryType::File, 5),
        meta("sub", EntryType::Dir, 0),
        meta("sub/b.txt", EntryType::File, 2097152),
    ]);
    let frame = encode_request(&req);
    let back = decode_request(&frame).unwrap();
    match back {
        WsRequest::ClearDir(v) => {
            assert_eq!(v.len(), 3);
            assert_eq!(v[0].rel_path(), "a.txt");
            assert_eq!(v[1].rel_path(), "sub");
            assert_eq!(v[2].rel_path(), "sub/b.txt");
        }
        _ => panic!("wrong variant"),
    }
}

#[test]
fn round_trip_escaped_strings() {
    // Quotes, backslashes, named control escapes, a raw control character
    // and a non-ASCII character all survive the trip.
    let tricky = "q\"b\\t\tn\nr\rf\u{c}b\u{8}c\u{1}snow\u{2603}";
    let req = WsRequest::CreateFile(meta(tricky, EntryType::File, 0));
    let frame = encode_request(&req);
    assert!(text(&frame).contains("\\u0001"));
    let back = decode_request(&frame).unwrap();
    match back {
        WsRequest::CreateFile(m) => assert_eq!(m.rel_path(), tricky),
        _ => panic!("wrong variant"),
    }
    // A standard JSON parser reads the same string back.
    let parsed: serde_json::Value = serde_json::from_str(&text(&frame)).unwrap();
    assert_eq!(parsed["CreateFile"]["rel_path"].as_str().unwrap(), tricky);
}

#[test]
fn round_trip_responses() {
    let m = meta("x/y", EntryType::File, 42);
    let cases = vec![
        WsResponse::CreateSuccess(m.clone()),
        WsResponse::CreateFailed(m.clone()),
        WsResponse::WriteSuccess(m.clone()),
        WsResponse::WriteFailed(m.clone()),
        WsResponse::ClearDirDone(vec![m.clone()]),
        WsResponse::ClearDirDone(vec![]),
    ];
    for resp in cases {
        let frame = encode_response(&resp);
        let back = decode_response(&frame).unwrap();
        let again = encode_response(&back);
        assert_eq!(text(&frame), text(&again));
    }
}

#[test]
fn decode_rejects_noise() {
    assert!(decode_request(&chars("")).is_none());
    assert!(decode_request(&chars("{}")).is_none());
    assert!(decode_request(&chars("not json")).is_none());
    assert!(decode_request(&chars("{\"CreateFile\":{}}")).is_none());
    // Trailing garbage after a full frame is refused.
    assert!(decode_request(&chars(
        "{\"CreateFile\":{\"rel_path\":\"a\",\"entry_type\":\"File\",\"file_size\":1}} "
    ))
    .is_none());
    // A request frame is not a response frame.
    assert!(decode_response(&chars(
        "{\"CreateFile\":{\"rel_path\":\"a\",\"entry_type\":\"File\",\"file_size\":1}}"
    ))
    .is_none());
}

#[test]
fn decode_rejects_non_canonical_numbers() {
    // Leading zeros never come out of the encoder, so they are refused.
    assert!(decode_request(&chars(
        "{\"CreateFile\":{\"rel_path\":\"a\",\"entry_type\":\"File\",\"file_size\":01}}"
    ))
    .is_none());
    // A number beyond the 64-bit range is refused, one within it accepted.
    assert!(decode_request(&chars(
        "{\"CreateFile\":{\"rel_path\":\"a\",\"entry_type\":\"File\",\"file_size\":18446744073709551616}}"
    ))
    .is_none());
    let ok = decode_request(&chars(
        "{\"CreateFile\":{\"rel_path\":\"a\",\"entry_type\":\"File\",\"file_size\":18446744073709551615}}"
    ))
    .unwrap();
    match ok {
        WsRequest::CreateFile(m) => assert_eq!(m.file_size(), u64::MAX),
        _ => panic!("wrong variant"),
    }
}
