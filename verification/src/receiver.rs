//! The receiver's side: startup checks and request execution.
//!
//! [`startup_plan`] decides, from what the surrounding process observed of
//! the output directory, whether a session may start and which setup steps
//! to take, in order; nothing is bound or written when it errs.
//! [`DirState`] models the output directory as the receiver's requests
//! transform it: `CreateFile` creates or truncates, `WriteFile` demands a
//! preceding successful create and writes at the carried offset, `ClearDir`
//! removes everything but the lock marker.  The surrounding process applies
//! the same decisions to the real directory and maps its I/O failures to
//! the failure responses.

use vstd::prelude::*;

use crate::error::AppError;
use crate::model::{EntryType, FileEntry, FileMeta, WsResponse, WsResponseView};
use crate::text::chars_eq;
use crate::text::chars_of;

verus! {

/// One setup step of receiver startup, to perform in order.
#[derive(Debug, Clone, Copy, PartialEq, Eq, Structural)]
pub enum StartupAction {
    /// Create the output directory.
    CreateOutputDir,
    /// Write the lock marker claiming the directory.
    WriteMarker,
    /// Bind the listening socket and start accepting.
    Bind,
}

/// The listening port must lie outside the system reserved range.
pub fn validate_port(port: u16) -> (r: Result<(), AppError>)
    ensures
        r is Ok <==> port >= 1024,
        r is Err ==> (r->Err_0 matches AppError::SystemReservedPort(p) && p == port),
{
    if port < 1024 {
        Err(AppError::SystemReservedPort(port))
    } else {
        Ok(())
    }
}

/// Decide whether a receiver may start, and with which setup steps.
///
/// Startup fails on a reserved port, on an output path that exists but is
/// not a directory, and on a directory already claimed by a lock marker.
/// On success the steps are: create the directory if it does not exist,
/// write the marker, and only then bind.
pub fn startup_plan(
    port: u16,
    output_dir: &str,
    dir_exists: bool,
    dir_is_dir: bool,
    marker_exists: bool,
) -> (r: Result<Vec<StartupAction>, AppError>)
    ensures
        r is Ok <==> (port >= 1024 && (dir_exists ==> (dir_is_dir && !marker_exists))),
        port < 1024 ==> (r->Err_0 matches AppError::SystemReservedPort(p) && p == port),
        port >= 1024 && dir_exists && !dir_is_dir ==> (r->Err_0 matches AppError::InvalidDir(d)
            && d@ == output_dir@),
        port >= 1024 && dir_exists && dir_is_dir && marker_exists ==> (r->Err_0 matches
            AppError::DirInUse(d) && d@ == output_dir@),
        r is Ok && !dir_exists ==> r->Ok_0@ == seq![
            StartupAction::CreateOutputDir,
            StartupAction::WriteMarker,
            StartupAction::Bind,
        ],
        r is Ok && dir_exists ==> r->Ok_0@ == seq![StartupAction::WriteMarker, StartupAction::Bind],
{
    if port < 1024 {
        return Err(AppError::SystemReservedPort(port));
    }
    if dir_exists {
        if !dir_is_dir {
            return Err(AppError::InvalidDir(output_dir.to_owned()));
        }
        if marker_exists {
            return Err(AppError::DirInUse(output_dir.to_owned()));
        }
        let mut acts: Vec<StartupAction> = Vec::new();
        acts.push(StartupAction::WriteMarker);
        acts.push(StartupAction::Bind);
        proof {
            assert(acts@ =~= seq![StartupAction::WriteMarker, StartupAction::Bind]);
        }
        Ok(acts)
    } else {
        let mut acts: Vec<StartupAction> = Vec::new();
        acts.push(StartupAction::CreateOutputDir);
        acts.push(StartupAction::WriteMarker);
        acts.push(StartupAction::Bind);
        proof {
            assert(acts@ =~= seq![
                StartupAction::CreateOutputDir,
                StartupAction::WriteMarker,
                StartupAction::Bind,
            ]);
        }
        Ok(acts)
    }
}

/// The first file entry with the given path, if any.
pub open spec fn find_file(files: Seq<(Seq<char>, Seq<u8>)>, rel: Seq<char>) -> Option<Seq<u8>>
    decreases files.len(),
{
    if files.len() == 0 {
        None
    } else if files[0].0 == rel {
        Some(files[0].1)
    } else {
        find_file(files.drop_first(), rel)
    }
}

/// Whether some directory entry carries the given path.
pub open spec fn has_dir(dirs: Seq<Seq<char>>, rel: Seq<char>) -> bool {
    exists|i: int| 0 <= i < dirs.len() && dirs[i] == rel
}

/// Whether `d` is a proper ancestor of `rel`: the part before one of its
/// separators.
pub open spec fn is_parent_prefix(rel: Seq<char>, d: Seq<char>) -> bool {
    exists|k: int| #![trigger rel.take(k)] 0 < k < rel.len() && rel[k] == '/' && d == rel.take(k)
}

/// A sequence of zero bytes.
pub open spec fn zero_bytes(n: nat) -> Seq<u8> {
    Seq::new(n, |i: int| 0u8)
}

/// The content of a file after writing `payload` at byte `offset`: bytes
/// before the offset are kept, the gap up to it (if any) reads as zeros,
/// the payload overwrites from there, and bytes beyond it are kept.
pub open spec fn write_at(content: Seq<u8>, offset: int, payload: Seq<u8>) -> Seq<u8> {
    if offset <= content.len() {
        content.take(offset) + payload + (if offset + payload.len() < content.len() {
            content.skip(offset + payload.len())
        } else {
            Seq::<u8>::empty()
        })
    } else {
        content + zero_bytes((offset - content.len()) as nat) + payload
    }
}

/// In-memory model of the receiver's output directory: regular files with
/// their bytes, and directories, both keyed by relative path.
pub struct DirState {
    files: Vec<(String, Vec<u8>)>,
    dirs: Vec<String>,
}

impl DirState {
    /// The file entries, path and content.
    pub closed spec fn files(&self) -> Seq<(Seq<char>, Seq<u8>)> {
        self.files@.map_values(|e: (String, Vec<u8>)| (e.0@, e.1@))
    }

    /// The directory paths.
    pub closed spec fn dirs(&self) -> Seq<Seq<char>> {
        self.dirs@.map_values(|d: String| d@)
    }

    /// File paths are unique.
    pub open spec fn wf(&self) -> bool {
        forall|i: int, j: int|
            0 <= i < j < self.files().len() ==> (#[trigger] self.files()[i].0)
                != (#[trigger] self.files()[j].0)
    }

    /// An empty directory.
    pub fn new() -> (r: Self)
        ensures
            r.wf(),
            r.files().len() == 0,
            r.dirs().len() == 0,
    {
        let r = DirState { files: Vec::new(), dirs: Vec::new() };
        proof {
            assert(r.files() =~= Seq::<(Seq<char>, Seq<u8>)>::empty());
            assert(r.dirs() =~= Seq::<Seq<char>>::empty());
        }
        r
    }

    /// The position of the file with the given path.
    fn find_index(&self, rel: &Vec<char>) -> (r: Option<usize>)
        ensures
            match r {
                Some(i) => i < self.files().len() && self.files()[i as int].0 == rel@,
                None => find_file(self.files(), rel@) is None,
            },
    {
        let mut i: usize = 0;
        proof {
            assert(self.files().skip(0) =~= self.files());
        }
        while i < self.files.len()
            invariant
                i <= self.files.len(),
                self.files().len() == self.files@.len(),
                find_file(self.files(), rel@) == find_file(self.files().skip(i as int), rel@),
                forall|q: int| 0 <= q < i ==> (#[trigger] self.files()[q].0) != rel@,
            decreases self.files.len() - i,
        {
            let cur = chars_of(self.files[i].0.as_str());
            proof {
                assert(self.files()[i as int] == (
                    self.files@[i as int].0@,
                    self.files@[i as int].1@,
                ));
            }
            if chars_eq(&cur, rel) {
                return Some(i);
            }
            i = i + 1;
            proof {
                let sk = self.files().skip(i - 1);
                assert(sk[0] == self.files()[i - 1]);
                assert(sk.drop_first() =~= self.files().skip(i as int));
            }
        }
        proof {
            assert(self.files().skip(i as int) =~= Seq::<(Seq<char>, Seq<u8>)>::empty());
        }
        None
    }

    /// Make one directory entry exist, idempotently.
    fn add_dir(&mut self, d: &Vec<char>)
        ensures
            final(self).files() == old(self).files(),
            forall|x: Seq<char>|
                #![trigger has_dir(final(self).dirs(), x)]
                has_dir(final(self).dirs(), x) <==> has_dir(old(self).dirs(), x) || x == d@,
    {
        let mut i: usize = 0;
        let mut present = false;
        while i < self.dirs.len()
            invariant_except_break
                !present,
                i <= self.dirs.len(),
                *self == *old(self),
            ensures
                i <= self.dirs.len(),
                *self == *old(self),
                present ==> i < self.dirs().len() && self.dirs()[i as int] == d@,
            decreases self.dirs.len() - i,
        {
            let cur = chars_of(self.dirs[i].as_str());
            proof {
                assert(self.dirs()[i as int] == self.dirs@[i as int]@);
            }
            if chars_eq(&cur, d) {
                present = true;
                break ;
            }
            i = i + 1;
        }
        let ghost oldd = self.dirs();
        if !present {
            let name = crate::text::string_from_chars(d);
            self.dirs.push(name);
            proof {
                assert(self.dirs() =~= oldd.push(d@)) by {
                    assert(forall|q: int|
                        0 <= q < self.dirs().len() ==> #[trigger] self.dirs()[q]
                            == self.dirs@[q]@);
                }
                assert forall|x: Seq<char>|
                    #![trigger has_dir(self.dirs(), x)]
                    has_dir(self.dirs(), x) <==> has_dir(oldd, x) || x == d@ by {
                    if has_dir(self.dirs(), x) {
                        let q = choose|q: int| 0 <= q < self.dirs().len() && self.dirs()[q] == x;
                        if q < oldd.len() {
                            assert(has_dir(oldd, x));
                        }
                    }
                    if has_dir(oldd, x) {
                        let q = choose|q: int| 0 <= q < oldd.len() && oldd[q] == x;
                        assert(self.dirs()[q] == x);
                    }
                    if x == d@ {
                        assert(self.dirs()[oldd.len() as int] == x);
                    }
                }
            }
        } else {
            proof {
                assert forall|x: Seq<char>|
                    #![trigger has_dir(self.dirs(), x)]
                    has_dir(self.dirs(), x) <==> has_dir(oldd, x) || x == d@ by {
                    if x == d@ {
                        assert(has_dir(oldd, x));
                    }
                }
            }
        }
    }

    /// Make every proper ancestor directory of `rel` exist, idempotently.
    fn add_ancestors(&mut self, rel: &Vec<char>)
        ensures
            final(self).files() == old(self).files(),
            forall|x: Seq<char>|
                #![trigger has_dir(final(self).dirs(), x)]
                has_dir(final(self).dirs(), x) <==> has_dir(old(self).dirs(), x)
                    || is_parent_prefix(rel@, x),
    {
        let mut prefix: Vec<char> = Vec::new();
        let mut k: usize = 0;
        proof {
            assert(prefix@ =~= rel@.take(0));
        }
        while k < rel.len()
            invariant
                k <= rel@.len(),
                prefix@ == rel@.take(k as int),
                self.files() == old(self).files(),
                forall|x: Seq<char>|
                    #![trigger has_dir(self.dirs(), x)]
                    has_dir(self.dirs(), x) <==> has_dir(old(self).dirs(), x) || (exists|p: int|
                        #![trigger rel@.take(p)]
                        0 < p < k && rel@[p] == '/' && x == rel@.take(p)),
            decreases rel@.len() - k,
        {
            if k > 0 && rel[k] == '/' {
                let ghost middirs = self.dirs();
                self.add_dir(&prefix);
                proof {
                    assert forall|x: Seq<char>|
                        #![trigger has_dir(self.dirs(), x)]
                        has_dir(self.dirs(), x) <==> (has_dir(old(self).dirs(), x) || (exists|
                            p: int,
                        |
                            #![trigger rel@.take(p)]
                            0 < p < k + 1 && rel@[p] == '/' && x == rel@.take(p))) by {
                        assert(has_dir(self.dirs(), x) <==> has_dir(middirs, x) || x == prefix@);
                        if has_dir(self.dirs(), x) {
                            if x == prefix@ {
                                assert(0 < k < k + 1 && rel@[k as int] == '/' && x == rel@.take(
                                    k as int,
                                ));
                            } else if !has_dir(old(self).dirs(), x) {
                                let p = choose|p: int|
                                    #![trigger rel@.take(p)]
                                    0 < p < k && rel@[p] == '/' && x == rel@.take(p);
                                assert(0 < p < k + 1 && rel@[p] == '/' && x == rel@.take(p));
                            }
                        }
                        if has_dir(old(self).dirs(), x) {
                            assert(has_dir(middirs, x));
                        }
                        if (exists|p: int|
                            #![trigger rel@.take(p)]
                            0 < p < k + 1 && rel@[p] == '/' && x == rel@.take(p)) {
                            let p = choose|p: int|
                                #![trigger rel@.take(p)]
                                0 < p < k + 1 && rel@[p] == '/' && x == rel@.take(p);
                            if p < k {
                                assert(has_dir(middirs, x));
                            } else {
                                assert(x == rel@.take(k as int));
                                assert(x == prefix@);
                            }
                            assert(has_dir(self.dirs(), x));
                        }
                    }
                }
            } else {
                proof {
                    assert forall|x: Seq<char>|
                        #![trigger has_dir(self.dirs(), x)]
                        has_dir(self.dirs(), x) <==> (has_dir(old(self).dirs(), x) || (exists|
                            p: int,
                        |
                            #![trigger rel@.take(p)]
                            0 < p < k + 1 && rel@[p] == '/' && x == rel@.take(p))) by {
                        if (exists|p: int|
                            #![trigger rel@.take(p)]
                            0 < p < k + 1 && rel@[p] == '/' && x == rel@.take(p)) {
                            let p = choose|p: int|
                                #![trigger rel@.take(p)]
                                0 < p < k + 1 && rel@[p] == '/' && x == rel@.take(p);
                            assert(p < k);
                        }
                    }
                }
            }
            let c = rel[k];
            prefix.push(c);
            k = k + 1;
            proof {
                assert(prefix@ =~= rel@.take(k as int));
            }
        }
        proof {
            assert forall|x: Seq<char>|
                #![trigger has_dir(self.dirs(), x)]
                has_dir(self.dirs(), x) <==> has_dir(old(self).dirs(), x) || is_parent_prefix(
                    rel@,
                    x,
                ) by {
                if is_parent_prefix(rel@, x) {
                    let p = choose|p: int|
                        #![trigger rel@.take(p)]
                        0 < p < rel@.len() && rel@[p] == '/' && x == rel@.take(p);
                    assert(0 < p < k && rel@[p] == '/' && x == rel@.take(p));
                }
                if !has_dir(old(self).dirs(), x) && has_dir(self.dirs(), x) {
                    let p = choose|p: int|
                        #![trigger rel@.take(p)]
                        0 < p < k && rel@[p] == '/' && x == rel@.take(p);
                    assert(is_parent_prefix(rel@, x));
                }
            }
        }
    }

    /// Execute one `CreateFile`.
    ///
    /// A directory entry and its ancestors are made to exist, idempotently.
    /// Anything else has its parent directories made to exist and is then
    /// created as a regular file, or truncated to zero length if it already
    /// exists, whatever it held before.  Other entries are untouched.
    pub fn create(&mut self, meta: &FileMeta) -> (r: WsResponse)
        requires
            old(self).wf(),
        ensures
            final(self).wf(),
            r@ == WsResponseView::CreateSuccess(meta@),
            meta@.entry_type == EntryType::Dir ==> {
                &&& final(self).files() == old(self).files()
                &&& (forall|d: Seq<char>|
                    #![trigger has_dir(final(self).dirs(), d)]
                    has_dir(final(self).dirs(), d) <==> has_dir(old(self).dirs(), d) || d
                        == meta@.rel_path || is_parent_prefix(meta@.rel_path, d))
            },
            meta@.entry_type != EntryType::Dir ==> {
                &&& (forall|d: Seq<char>|
                    #![trigger has_dir(final(self).dirs(), d)]
                    has_dir(final(self).dirs(), d) <==> has_dir(old(self).dirs(), d)
                        || is_parent_prefix(meta@.rel_path, d))
                &&& find_file(final(self).files(), meta@.rel_path) == Some(Seq::<u8>::empty())
                &&& (forall|rel: Seq<char>|
                    rel != meta@.rel_path ==> #[trigger] find_file(final(self).files(), rel)
                        == find_file(old(self).files(), rel))
            },
    {
        let rel = chars_of(meta.rel_path());
        self.add_ancestors(&rel);
        let ghost middirs = self.dirs();
        if meta.is_dir() {
            self.add_dir(&rel);
            proof {
                assert forall|d: Seq<char>|
                    #![trigger has_dir(self.dirs(), d)]
                    has_dir(self.dirs(), d) <==> (has_dir(old(self).dirs(), d) || d
                        == meta@.rel_path || is_parent_prefix(meta@.rel_path, d)) by {
                    assert(has_dir(self.dirs(), d) <==> has_dir(middirs, d) || d == rel@);
                    assert(has_dir(middirs, d) <==> has_dir(old(self).dirs(), d)
                        || is_parent_prefix(rel@, d));
                }
            }
            WsResponse::CreateSuccess(meta.duplicate())
        } else {
            let idx = self.find_index(&rel);
            let ghost oldf = self.files();
            match idx {
                Some(i) => {
                    let name = crate::text::string_from_chars(&rel);
                    let _ = self.files.remove(i);
                    self.files.insert(i, (name, Vec::new()));
                    proof {
                        assert(self.files() =~= oldf.update(
                            i as int,
                            (meta@.rel_path, Seq::<u8>::empty()),
                        )) by {
                            assert(forall|q: int|
                                0 <= q < self.files().len() ==> #[trigger] self.files()[q] == (
                                self.files@[q].0@,
                                self.files@[q].1@,
                            ));
                        }
                        lemma_find_file_update(oldf, i as int, Seq::<u8>::empty());
                    }
                },
                None => {
                    let name = crate::text::string_from_chars(&rel);
                    self.files.push((name, Vec::new()));
                    proof {
                        assert(self.files() =~= oldf.push((meta@.rel_path, Seq::<u8>::empty())))
                            by {
                            assert(forall|q: int|
                                0 <= q < self.files().len() ==> #[trigger] self.files()[q] == (
                                self.files@[q].0@,
                                self.files@[q].1@,
                            ));
                        }
                        lemma_find_file_push(oldf, meta@.rel_path, Seq::<u8>::empty());
                        assert forall|i2: int, j2: int|
                            0 <= i2 < j2 < self.files().len() implies (
                        #[trigger] self.files()[i2].0) != (#[trigger] self.files()[j2].0) by {
                            if j2 == oldf.len() {
                                lemma_find_file_absent(oldf, i2);
                            }
                        }
                    }
                },
            }
            proof {
                assert(self.dirs() == middirs);
                assert forall|d: Seq<char>|
                    #![trigger has_dir(self.dirs(), d)]
                    has_dir(self.dirs(), d) <==> (has_dir(old(self).dirs(), d)
                        || is_parent_prefix(meta@.rel_path, d)) by {
                    assert(has_dir(middirs, d) <==> has_dir(old(self).dirs(), d)
                        || is_parent_prefix(rel@, d));
                }
            }
            WsResponse::CreateSuccess(meta.duplicate())
        }
    }

    /// Execute one `WriteFile`.
    ///
    /// Only file entries carry bytes: a directory or symlink entry is
    /// acknowledged without any write.  A file entry is rejected, and
    /// nothing written anywhere, when it carries no chunk or when no
    /// successful create preceded it; otherwise the payload is written at
    /// the carried offset.
    pub fn write(&mut self, entry: &FileEntry) -> (r: WsResponse)
        requires
            old(self).wf(),
        ensures
            final(self).wf(),
            final(self).dirs() == old(self).dirs(),
            entry@.file_meta.entry_type != EntryType::File ==> *final(self) == *old(self) && r@
                == WsResponseView::WriteSuccess(entry@.file_meta),
            entry@.file_meta.entry_type == EntryType::File && entry@.file_chunk is None
                ==> *final(self) == *old(self) && r@ == WsResponseView::WriteFailed(
                entry@.file_meta,
            ),
            entry@.file_meta.entry_type == EntryType::File && entry@.file_chunk is Some
                && find_file(old(self).files(), entry@.file_meta.rel_path) is None
                ==> *final(self) == *old(self) && r@ == WsResponseView::WriteFailed(
                entry@.file_meta,
            ),
            entry@.file_meta.entry_type == EntryType::File && entry@.file_chunk is Some
                && find_file(old(self).files(), entry@.file_meta.rel_path) is Some ==> {
                let ch = entry@.file_chunk->0;
                let old_content = find_file(old(self).files(), entry@.file_meta.rel_path)->0;
                if ch.offset <= usize::MAX {
                    &&& r@ == WsResponseView::WriteSuccess(entry@.file_meta)
                    &&& find_file(final(self).files(), entry@.file_meta.rel_path) == Some(
                        write_at(old_content, ch.offset as int, ch.payload),
                    )
                    &&& (forall|rel: Seq<char>|
                        rel != entry@.file_meta.rel_path ==> #[trigger] find_file(
                            final(self).files(),
                            rel,
                        ) == find_file(old(self).files(), rel))
                } else {
                    *final(self) == *old(self) && r@ == WsResponseView::WriteFailed(
                        entry@.file_meta,
                    )
                }
            },
    {
        if !entry.is_file() {
            return WsResponse::WriteSuccess(entry.file_meta());
        }
        let (off64, payload): (u64, &[u8]) = match (entry.file_offset(), entry.file_content()) {
            (Some(o), Some(p)) => (o, p),
            _ => {
                return WsResponse::WriteFailed(entry.file_meta());
            },
        };
        let rel = chars_of(entry.rel_path());
        let idx = match self.find_index(&rel) {
            Some(i) => i,
            None => {
                return WsResponse::WriteFailed(entry.file_meta());
            },
        };
        if off64 > (usize::MAX as u64) {
            return WsResponse::WriteFailed(entry.file_meta());
        }
        let off = off64 as usize;
        let ghost oldf = self.files();
        let ghost old_content = self.files()[idx as int].1;
        proof {
            lemma_find_file_at(oldf, idx as int);
            assert(old_content == self.files@[idx as int].1@);
        }
        let n = self.files[idx].1.len();
        let mut out: Vec<u8> = Vec::new();
        let keep: usize = if off <= n {
            off
        } else {
            n
        };
        let mut q: usize = 0;
        while q < keep
            invariant
                keep <= n,
                n == old_content.len(),
                idx < self.files@.len(),
                old_content == self.files@[idx as int].1@,
                q <= keep,
                out@ == old_content.take(q as int),
            decreases keep - q,
        {
            out.push(self.files[idx].1[q]);
            q = q + 1;
            proof {
                assert(out@ =~= old_content.take(q as int));
            }
        }
        while out.len() < off
            invariant
                n == old_content.len(),
                keep == if off <= n {
                    off as int
                } else {
                    n as int
                },
                out@.len() >= keep,
                out@.len() <= off || out@.len() == keep,
                out@ == old_content.take(keep as int) + zero_bytes((out@.len() - keep) as nat),
            decreases off - out.len(),
        {
            out.push(0);
            proof {
                assert(out@ =~= old_content.take(keep as int) + zero_bytes(
                    (out@.len() - keep) as nat,
                ));
            }
        }
        let mut q2: usize = 0;
        let ghost mid = out@;
        while q2 < payload.len()
            invariant
                q2 <= payload@.len(),
                out@ == mid + payload@.take(q2 as int),
            decreases payload.len() - q2,
        {
            out.push(payload[q2]);
            q2 = q2 + 1;
            proof {
                assert(out@ =~= mid + payload@.take(q2 as int));
            }
        }
        proof {
            assert(payload@.take(payload@.len() as int) =~= payload@);
        }
        let has_tail = off < n && payload.len() < n - off;
        let tail_start: usize = if has_tail {
            off + payload.len()
        } else {
            n
        };
        let ghost mid2 = out@;
        let mut q3: usize = tail_start;
        proof {
            assert(old_content.subrange(tail_start as int, tail_start as int) =~= Seq::<
                u8,
            >::empty());
            assert(out@ =~= mid2 + old_content.subrange(tail_start as int, tail_start as int));
        }
        while q3 < n
            invariant
                n == old_content.len(),
                idx < self.files@.len(),
                old_content == self.files@[idx as int].1@,
                tail_start <= q3 <= n,
                out@ == mid2 + old_content.subrange(tail_start as int, q3 as int),
            decreases n - q3,
        {
            out.push(self.files[idx].1[q3]);
            q3 = q3 + 1;
            proof {
                assert(out@ =~= mid2 + old_content.subrange(tail_start as int, q3 as int));
            }
        }
        proof {
            assert(out@ =~= write_at(old_content, off as int, payload@)) by {
                if off <= n {
                    assert(zero_bytes(0) =~= Seq::<u8>::empty());
                    assert(mid =~= old_content.take(off as int));
                    if has_tail {
                        assert(old_content.subrange(tail_start as int, n as int)
                            =~= old_content.skip(tail_start as int));
                        assert(out@ =~= old_content.take(off as int) + payload@ + old_content.skip(
                            tail_start as int,
                        ));
                    } else {
                        assert(out@ =~= old_content.take(off as int) + payload@ + Seq::<
                            u8,
                        >::empty());
                    }
                } else {
                    assert(old_content.take(keep as int) =~= old_content);
                    assert(mid == old_content.take(keep as int) + zero_bytes((off - keep) as nat));
                    assert(mid =~= old_content + zero_bytes((off - n) as nat));
                    assert(out@ =~= old_content + zero_bytes((off - n) as nat) + payload@);
                }
            }
        }
        let name = crate::text::string_from_chars(&rel);
        let _ = self.files.remove(idx);
        self.files.insert(idx, (name, out));
        proof {
            assert(self.files() =~= oldf.update(
                idx as int,
                (entry@.file_meta.rel_path, write_at(old_content, off as int, payload@)),
            )) by {
                assert(forall|q4: int|
                    0 <= q4 < self.files().len() ==> #[trigger] self.files()[q4] == (
                    self.files@[q4].0@,
                    self.files@[q4].1@,
                ));
            }
            lemma_find_file_update(oldf, idx as int, write_at(old_content, off as int, payload@));
        }
        WsResponse::WriteSuccess(entry.file_meta())
    }

    /// Execute one `ClearDir`: remove every entry except the lock marker.
    ///
    /// The marker file, if present, keeps its content; every other file and
    /// every directory is removed, however deeply nested its path.  The
    /// model removes everything it holds, so the reported list of
    /// undeletable paths is empty.
    pub fn clear(&mut self, marker: &str) -> (r: WsResponse)
        requires
            old(self).wf(),
        ensures
            final(self).wf(),
            r@ == WsResponseView::ClearDirDone(Seq::<crate::model::FileMetaView>::empty()),
            final(self).dirs().len() == 0,
            find_file(final(self).files(), marker@) == find_file(old(self).files(), marker@),
            forall|rel: Seq<char>|
                rel != marker@ ==> #[trigger] find_file(final(self).files(), rel) is None,
    {
        let rel = chars_of(marker);
        let ghost oldf = self.files();
        let idx = self.find_index(&rel);
        match idx {
            Some(i) => {
                proof {
                    lemma_find_file_at(oldf, i as int);
                }
                let entry = self.files.remove(i);
                self.files = Vec::new();
                self.files.push(entry);
                proof {
                    assert(self.files() =~= seq![(marker@, oldf[i as int].1)]) by {
                        assert(forall|q: int|
                            0 <= q < self.files().len() ==> #[trigger] self.files()[q] == (
                            self.files@[q].0@,
                            self.files@[q].1@,
                        ));
                    }
                    assert(find_file(self.files(), marker@) == Some(oldf[i as int].1));
                    assert forall|rel2: Seq<char>| rel2 != marker@ implies #[trigger] find_file(
                        self.files(),
                        rel2,
                    ) is None by {
                        assert(self.files().drop_first() =~= Seq::<(Seq<char>, Seq<u8>)>::empty());
                        assert(find_file(self.files(), rel2) == find_file(
                            self.files().drop_first(),
                            rel2,
                        ));
                    }
                }
            },
            None => {
                self.files = Vec::new();
                proof {
                    assert(self.files() =~= Seq::<(Seq<char>, Seq<u8>)>::empty());
                }
            },
        }
        self.dirs = Vec::new();
        proof {
            assert(self.dirs() =~= Seq::<Seq<char>>::empty());
        }
        let empty_metas: Vec<FileMeta> = Vec::new();
        proof {
            assert(crate::model::metas_view(empty_metas@) =~= Seq::<
                crate::model::FileMetaView,
            >::empty());
        }
        WsResponse::ClearDirDone(empty_metas)
    }

    /// The current content of the file at the given path, for inspection.
    pub fn content_of(&self, rel_path: &str) -> (r: Option<&Vec<u8>>)
        requires
            self.wf(),
        ensures
            match find_file(self.files(), rel_path@) {
                Some(c) => r is Some && r->0@ == c,
                None => r is None,
            },
    {
        let rel = chars_of(rel_path);
        match self.find_index(&rel) {
            Some(i) => {
                proof {
                    lemma_find_file_at(self.files(), i as int);
                    assert(self.files()[i as int].1 == self.files@[i as int].1@);
                }
                Some(&self.files[i].1)
            },
            None => None,
        }
    }

    /// Whether a directory entry with the given path exists.
    pub fn dir_exists(&self, rel_path: &str) -> (r: bool)
        ensures
            r == has_dir(self.dirs(), rel_path@),
    {
        let rel = chars_of(rel_path);
        let mut i: usize = 0;
        while i < self.dirs.len()
            invariant
                rel@ == rel_path@,
                i <= self.dirs.len(),
                self.dirs().len() == self.dirs@.len(),
                forall|q: int| 0 <= q < i ==> (#[trigger] self.dirs()[q]) != rel_path@,
            decreases self.dirs.len() - i,
        {
            let cur = chars_of(self.dirs[i].as_str());
            proof {
                assert(self.dirs()[i as int] == self.dirs@[i as int]@);
            }
            if chars_eq(&cur, &rel) {
                return true;
            }
            i = i + 1;
        }
        false
    }
}

/// In a table with unique paths, lookup at a held index finds that entry.
proof fn lemma_find_file_at(files: Seq<(Seq<char>, Seq<u8>)>, i: int)
    requires
        0 <= i < files.len(),
        forall|a: int, b: int|
            0 <= a < b < files.len() ==> (#[trigger] files[a].0) != (#[trigger] files[b].0),
    ensures
        find_file(files, files[i].0) == Some(files[i].1),
    decreases files.len(),
{
    if i == 0 {
    } else {
        assert(files[0].0 != files[i].0);
        lemma_find_file_at(files.drop_first(), i - 1);
        assert(files.drop_first()[i - 1] == files[i]);
    }
}

/// Lookup at a held path finds something.
proof fn lemma_find_file_absent(files: Seq<(Seq<char>, Seq<u8>)>, i: int)
    requires
        0 <= i < files.len(),
    ensures
        find_file(files, files[i].0) is Some,
    decreases files.len(),
{
    if files[0].0 == files[i].0 {
    } else {
        lemma_find_file_absent(files.drop_first(), i - 1);
        assert(files.drop_first()[i - 1] == files[i]);
    }
}

/// Replacing the entry at a held index rewrites that path's content and no
/// other.
proof fn lemma_find_file_update(files: Seq<(Seq<char>, Seq<u8>)>, i: int, v: Seq<u8>)
    requires
        0 <= i < files.len(),
        forall|a: int, b: int|
            0 <= a < b < files.len() ==> (#[trigger] files[a].0) != (#[trigger] files[b].0),
    ensures
        find_file(files.update(i, (files[i].0, v)), files[i].0) == Some(v),
        forall|rel: Seq<char>|
            rel != files[i].0 ==> #[trigger] find_file(files.update(i, (files[i].0, v)), rel)
                == find_file(files, rel),
        forall|a: int, b: int|
            0 <= a < b < files.update(i, (files[i].0, v)).len() ==> (#[trigger] files.update(
                i,
                (files[i].0, v),
            )[a].0) != (#[trigger] files.update(i, (files[i].0, v))[b].0),
    decreases files.len(),
{
    let upd = files.update(i, (files[i].0, v));
    assert(upd.len() == files.len());
    assert(forall|q: int| 0 <= q < files.len() && q != i ==> upd[q] == files[q]);
    assert(upd[i] == (files[i].0, v));
    assert(forall|q: int| 0 <= q < files.len() ==> upd[q].0 == files[q].0);
    if i == 0 {
        assert(find_file(upd, files[0].0) == Some(v));
        assert forall|rel: Seq<char>| rel != files[0].0 implies #[trigger] find_file(upd, rel)
            == find_file(files, rel) by {
            assert(upd.drop_first() =~= files.drop_first());
            assert(find_file(upd, rel) == find_file(upd.drop_first(), rel));
            assert(find_file(files, rel) == find_file(files.drop_first(), rel));
        }
    } else {
        assert(files[0].0 != files[i].0);
        lemma_find_file_update(files.drop_first(), i - 1, v);
        assert(upd.drop_first() =~= files.drop_first().update(i - 1, (files[i].0, v)));
        assert(files.drop_first()[i - 1] == files[i]);
        assert(find_file(upd, files[i].0) == Some(v)) by {
            assert(upd[0].0 == files[0].0);
            assert(find_file(upd, files[i].0) == find_file(upd.drop_first(), files[i].0));
        }
        assert forall|rel: Seq<char>| rel != files[i].0 implies #[trigger] find_file(upd, rel)
            == find_file(files, rel) by {
            if files[0].0 == rel {
                assert(upd[0] == files[0]);
            } else {
                assert(find_file(upd, rel) == find_file(upd.drop_first(), rel));
                assert(find_file(files, rel) == find_file(files.drop_first(), rel));
                assert(find_file(files.drop_first().update(i - 1, (files[i].0, v)), rel)
                    == find_file(files.drop_first(), rel));
            }
        }
    }
}

/// Appending a fresh path adds exactly that file.
proof fn lemma_find_file_push(files: Seq<(Seq<char>, Seq<u8>)>, rel: Seq<char>, v: Seq<u8>)
    requires
        find_file(files, rel) is None,
    ensures
        find_file(files.push((rel, v)), rel) == Some(v),
        forall|rel2: Seq<char>|
            rel2 != rel ==> #[trigger] find_file(files.push((rel, v)), rel2) == find_file(
                files,
                rel2,
            ),
    decreases files.len(),
{
    let pu = files.push((rel, v));
    if files.len() == 0 {
        assert(pu[0] == (rel, v));
        assert(find_file(pu, rel) == Some(v));
        assert forall|rel2: Seq<char>| rel2 != rel implies #[trigger] find_file(pu, rel2)
            == find_file(files, rel2) by {
            assert(pu.drop_first() =~= Seq::<(Seq<char>, Seq<u8>)>::empty());
            assert(find_file(pu, rel2) == find_file(pu.drop_first(), rel2));
        }
    } else {
        assert(files[0].0 != rel);
        lemma_find_file_push(files.drop_first(), rel, v);
        assert(pu.drop_first() =~= files.drop_first().push((rel, v)));
        assert(pu[0] == files[0]);
        assert(find_file(pu, rel) == find_file(pu.drop_first(), rel));
        assert(find_file(pu, rel) == Some(v));
        assert forall|rel2: Seq<char>| rel2 != rel implies #[trigger] find_file(pu, rel2)
            == find_file(files, rel2) by {
            if files[0].0 == rel2 {
            } else {
                assert(find_file(pu, rel2) == find_file(pu.drop_first(), rel2));
                assert(find_file(files, rel2) == find_file(files.drop_first(), rel2));
                assert(find_file(files.drop_first().push((rel, v)), rel2) == find_file(
                    files.drop_first(),
                    rel2,
                ));
            }
        }
    }
}

} // verus!
