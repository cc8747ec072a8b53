//! Verified core of a point-to-point directory synchronization tool.
//!
//! A sender pushes the contents of a local directory tree to a receiver over
//! an ordered, message-oriented connection.  This crate holds the parts of
//! that system that are pure logic: the wire messages and their codec, the
//! scan table built from a directory walk, the sender's reconciliation and
//! chunking rules, the receiver's request execution semantics, the
//! single-permit admission control and the sticky shutdown signal.  The
//! surrounding process (sockets, the filesystem, the async runtime) hands
//! these functions plain values and carries out the actions they decide on.

use vstd::prelude::*;

mod admission;
mod chunks;
mod cli;
mod codec;
mod error;
mod model;
mod parse;
mod receiver;
mod scanner;
mod sender;
mod shutdown;
mod text;

pub use admission::AdmissionGate;
pub use codec::{
    enc_bytes, enc_chunk, enc_entry, enc_entry_type, enc_meta, enc_metas, enc_request,
    enc_response, enc_string, enc_u64, encode_request, encode_response, esc, esc_char,
};
pub use chunks::{
    chunk_count, chunk_payload, chunks_concat, is_chunk_request, lemma_chunks_reconstruct,
    plan_write_requests,
};
pub use cli::{select_mode, RunMode};
pub use error::AppError;
pub use model::{
    EntryType, FileChunk, FileChunkView, FileEntry, FileEntryView, FileMeta, FileMetaView,
    WsRequest, WsRequestView, WsResponse, WsResponseView,
};
pub use parse::{
    decode_request, decode_response, lemma_request_decode_sound, lemma_request_round_trip,
    lemma_response_decode_sound, lemma_response_round_trip, sp_meta, sp_metas, sp_request,
    sp_response, sp_string, sp_u64,
};
pub use receiver::{
    find_file, has_dir, startup_plan, validate_port, write_at, zero_bytes, DirState,
    StartupAction,
};
pub use scanner::{
    accepted_entry, build_scan_table, has_rel, lemma_scan_excludes_root, lemma_scan_unique,
    rel_path_of, scan_covers, sorted_strict, spec_rel_path, RawEntry, ScanTable,
};
pub use sender::{
    actions_view, check_sender_args, create_plan, url_accepted, SenderAction, SenderActionView,
    SenderEngine, SenderPhase,
};
pub use shutdown::ShutdownSignal;
pub use text::{chars_eq, chars_lt, chars_of, lex_lt, lex_lt_from};
