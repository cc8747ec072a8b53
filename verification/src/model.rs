//! Wire-level data model of the synchronization protocol.
//!
//! A scan of the sender's directory yields [`FileMeta`] entries; file content
//! travels in [`FileChunk`] slices wrapped in [`FileEntry`] values.  The two
//! message enums, [`WsRequest`] and [`WsResponse`], are the complete protocol
//! surface between sender and receiver.  Each type has a ghost view used by
//! every contract in this crate.

use vstd::prelude::*;

verus! {

/// Classification of one node discovered in a directory walk.
#[derive(Debug, Clone, Copy, PartialEq, Eq, Structural)]
pub enum EntryType {
    File,
    Dir,
    SymLink,
}

/// Mathematical value of a [`FileMeta`].
pub ghost struct FileMetaView {
    pub rel_path: Seq<char>,
    pub entry_type: EntryType,
    pub file_size: u64,
}

/// Metadata of one entry, relative to the synchronized root.
///
/// `rel_path` uses forward slashes and is the sole identity key: `==`
/// compares `rel_path` alone, as two scans of the same tree may disagree on
/// sizes but never on identity.  `file_size` is informational for files and
/// 0 for directories.
#[derive(Debug, Clone)]
pub struct FileMeta {
    rel_path: String,
    entry_type: EntryType,
    file_size: u64,
}

impl View for FileMeta {
    type V = FileMetaView;

    closed spec fn view(&self) -> FileMetaView {
        FileMetaView {
            rel_path: self.rel_path@,
            entry_type: self.entry_type,
            file_size: self.file_size,
        }
    }
}

impl PartialEq for FileMeta {
    fn eq(&self, other: &Self) -> (r: bool) {
        self.rel_path == other.rel_path
    }
}

impl vstd::std_specs::cmp::PartialEqSpecImpl for FileMeta {
    open spec fn obeys_eq_spec() -> bool {
        true
    }

    open spec fn eq_spec(&self, other: &Self) -> bool {
        self@.rel_path == other@.rel_path
    }
}

impl Eq for FileMeta {}

impl FileMeta {
    /// Create file meta.
    pub fn new(rel_path: String, entry_type: EntryType, file_size: u64) -> (r: Self)
        ensures
            r@ == (FileMetaView { rel_path: rel_path@, entry_type, file_size }),
    {
        Self { rel_path, entry_type, file_size }
    }

    /// Get relative path info.
    pub fn rel_path(&self) -> (r: &str)
        ensures
            r@ == self@.rel_path,
    {
        self.rel_path.as_str()
    }

    /// Return true if current file meta is a file.
    pub fn is_file(&self) -> (r: bool)
        ensures
            r == (self@.entry_type == EntryType::File),
    {
        self.entry_type == EntryType::File
    }

    /// Return true if current file meta is a directory.
    pub fn is_dir(&self) -> (r: bool)
        ensures
            r == (self@.entry_type == EntryType::Dir),
    {
        self.entry_type == EntryType::Dir
    }

    /// Return true if current file meta is a symbolic link.
    pub fn is_sym_link(&self) -> (r: bool)
        ensures
            r == (self@.entry_type == EntryType::SymLink),
    {
        self.entry_type == EntryType::SymLink
    }

    /// Get file size info.
    pub fn file_size(&self) -> (r: u64)
        ensures
            r == self@.file_size,
    {
        self.file_size
    }

    /// An exact copy; unlike the derived `Clone`, its contract pins the value.
    pub fn duplicate(&self) -> (r: Self)
        ensures
            r@ == self@,
    {
        Self {
            rel_path: self.rel_path.clone(),
            entry_type: self.entry_type,
            file_size: self.file_size,
        }
    }
}

/// Mathematical value of a [`FileChunk`].
pub ghost struct FileChunkView {
    pub offset: u64,
    pub payload: Seq<u8>,
}

/// A bounded slice of one file's bytes, at a byte offset within that file.
///
/// Offsets of successive chunks of one file are contiguous: each offset is
/// the previous offset plus the previous payload length.
#[derive(Debug, Clone)]
pub struct FileChunk {
    offset: u64,
    payload: Vec<u8>,
}

impl View for FileChunk {
    type V = FileChunkView;

    closed spec fn view(&self) -> FileChunkView {
        FileChunkView { offset: self.offset, payload: self.payload@ }
    }
}

impl Default for FileChunk {
    fn default() -> (r: Self)
        ensures
            r@ == (FileChunkView { offset: 0, payload: Seq::<u8>::empty() }),
    {
        let r = Self { offset: 0, payload: Vec::new() };
        proof {
            assert(r.payload@ =~= Seq::<u8>::empty());
        }
        r
    }
}

impl FileChunk {
    /// Create file chunk.
    pub fn new(offset: u64, payload: Vec<u8>) -> (r: Self)
        ensures
            r@ == (FileChunkView { offset, payload: payload@ }),
    {
        Self { offset, payload }
    }

    /// Get file offset info.
    pub fn offset(&self) -> (r: u64)
        ensures
            r == self@.offset,
    {
        self.offset
    }

    /// Get file content.
    pub fn payload(&self) -> (r: &[u8])
        ensures
            r@ == self@.payload,
    {
        self.payload.as_slice()
    }
}

/// Mathematical value of a [`FileEntry`].
pub ghost struct FileEntryView {
    pub file_meta: FileMetaView,
    pub file_chunk: Option<FileChunkView>,
}

/// The unit of a `WriteFile` message: an entry plus, for files, one chunk.
///
/// The chunk is absent for directory and creation entries.
#[derive(Debug, Clone)]
pub struct FileEntry {
    file_meta: FileMeta,
    file_chunk: Option<FileChunk>,
}

impl View for FileEntry {
    type V = FileEntryView;

    closed spec fn view(&self) -> FileEntryView {
        FileEntryView {
            file_meta: self.file_meta@,
            file_chunk: match self.file_chunk {
                Option::None => Option::None,
                Option::Some(c) => Option::Some(c@),
            },
        }
    }
}

impl FileEntry {
    /// Create file entry.
    pub fn new(file_meta: FileMeta, file_chunk: Option<FileChunk>) -> (r: Self)
        ensures
            r@.file_meta == file_meta@,
            file_chunk is Some ==> r@.file_chunk == Some(file_chunk->0@),
            file_chunk is None ==> r@.file_chunk is None,
    {
        Self { file_meta, file_chunk }
    }

    /// Get file offset info.
    pub fn file_offset(&self) -> (r: Option<u64>)
        ensures
            match self@.file_chunk {
                Some(c) => r == Some(c.offset),
                None => r is None,
            },
    {
        match &self.file_chunk {
            Some(c) => Some(c.offset()),
            None => None,
        }
    }

    /// Get file content.
    pub fn file_content(&self) -> (r: Option<&[u8]>)
        ensures
            match self@.file_chunk {
                Some(c) => r is Some && r->0@ == c.payload,
                None => r is None,
            },
    {
        match &self.file_chunk {
            Some(c) => Some(c.payload()),
            None => None,
        }
    }

    /// Get file relative path info.
    pub fn rel_path(&self) -> (r: &str)
        ensures
            r@ == self@.file_meta.rel_path,
    {
        self.file_meta.rel_path()
    }

    /// Return true if current file entry is a file.
    pub fn is_file(&self) -> (r: bool)
        ensures
            r == (self@.file_meta.entry_type == EntryType::File),
    {
        self.file_meta.is_file()
    }

    /// Return true if current file entry is a directory.
    pub fn is_dir(&self) -> (r: bool)
        ensures
            r == (self@.file_meta.entry_type == EntryType::Dir),
    {
        self.file_meta.is_dir()
    }

    /// Return true if current file entry is a symbolic link.
    pub fn is_sym_link(&self) -> (r: bool)
        ensures
            r == (self@.file_meta.entry_type == EntryType::SymLink),
    {
        self.file_meta.is_sym_link()
    }

    /// Get file meta info.
    pub fn file_meta(&self) -> (r: FileMeta)
        ensures
            r@ == self@.file_meta,
    {
        self.file_meta.duplicate()
    }
}

/// Mathematical value of a [`WsRequest`].
pub ghost enum WsRequestView {
    CreateFile(FileMetaView),
    WriteFile(FileEntryView),
    ClearDir(Seq<FileMetaView>),
}

/// The view of a list of metas, element by element.
pub open spec fn metas_view(v: Seq<FileMeta>) -> Seq<FileMetaView> {
    v.map_values(|m: FileMeta| m@)
}

/// Requests travelling from sender to receiver.
#[derive(Debug, Clone)]
pub enum WsRequest {
    /// Declare that a path should exist (create or truncate).
    CreateFile(FileMeta),
    /// Append one chunk to an already created file.
    WriteFile(FileEntry),
    /// The authoritative set of paths of this session; the receiver prunes
    /// everything else.
    ClearDir(Vec<FileMeta>),
}

impl View for WsRequest {
    type V = WsRequestView;

    open spec fn view(&self) -> WsRequestView {
        match self {
            WsRequest::CreateFile(m) => WsRequestView::CreateFile(m@),
            WsRequest::WriteFile(e) => WsRequestView::WriteFile(e@),
            WsRequest::ClearDir(v) => WsRequestView::ClearDir(metas_view(v@)),
        }
    }
}

/// Mathematical value of a [`WsResponse`].
pub ghost enum WsResponseView {
    CreateSuccess(FileMetaView),
    CreateFailed(FileMetaView),
    WriteSuccess(FileMetaView),
    WriteFailed(FileMetaView),
    ClearDirDone(Seq<FileMetaView>),
}

/// Responses travelling from receiver to sender.
#[derive(Debug, Clone)]
pub enum WsResponse {
    /// The path of this meta now exists (files: truncated to length 0).
    CreateSuccess(FileMeta),
    /// The path of this meta could not be created.
    CreateFailed(FileMeta),
    /// The chunk for this meta was appended.
    WriteSuccess(FileMeta),
    /// The chunk for this meta was rejected or could not be written.
    WriteFailed(FileMeta),
    /// The sweep of the output directory finished; the carried paths could
    /// not be removed and the sender must not resend content for them.
    ClearDirDone(Vec<FileMeta>),
}

impl View for WsResponse {
    type V = WsResponseView;

    open spec fn view(&self) -> WsResponseView {
        match self {
            WsResponse::CreateSuccess(m) => WsResponseView::CreateSuccess(m@),
            WsResponse::CreateFailed(m) => WsResponseView::CreateFailed(m@),
            WsResponse::WriteSuccess(m) => WsResponseView::WriteSuccess(m@),
            WsResponse::WriteFailed(m) => WsResponseView::WriteFailed(m@),
            WsResponse::ClearDirDone(v) => WsResponseView::ClearDirDone(metas_view(v@)),
        }
    }
}

} // verus!
