//! The scan table: what one walk of the sender's directory yields.
//!
//! The surrounding process walks the tree and reports one [`RawEntry`] per
//! node; this module classifies them.  A node is kept when its path lies
//! strictly under the root (so the root itself is never an entry) and, for
//! symbolic links, only when they were asked for.  The kept entries form a
//! table ordered strictly by relative path, so rel paths are unique, the
//! `ClearDir` payload is deterministic, and a path looks up its source
//! handle.

use vstd::prelude::*;

use crate::model::{metas_view, EntryType, FileMeta, FileMetaView};
use crate::text::{
    chars_eq, chars_lt, chars_of, lemma_lex_lt_connex, lemma_lex_lt_trans,
    lex_lt,
};

verus! {

/// One node as the directory walker reported it.
pub struct RawEntry {
    /// The node's path as the walker gave it, forward slashes.
    pub path: String,
    /// What the node is.
    pub entry_type: EntryType,
    /// The node's size in bytes; meaningful for files only.
    pub file_size: u64,
}

/// The relative path of `path` under `root`: the part after `root` and one
/// separator.  The root itself, and any path not strictly under it, has none.
pub open spec fn spec_rel_path(root: Seq<char>, path: Seq<char>) -> Option<Seq<char>> {
    if path.len() > root.len() + 1 && path.take(root.len() as int) == root && path[root.len() as int]
        == '/' {
        Some(path.skip(root.len() + 1 as int))
    } else {
        None
    }
}

/// The meta a raw entry contributes, if it is kept.
pub open spec fn accepted_entry(root: Seq<char>, raw: RawEntry, include_symlinks: bool) -> Option<
    FileMetaView,
> {
    match spec_rel_path(root, raw.path@) {
        None => None,
        Some(rel) => {
            if raw.entry_type == EntryType::SymLink && !include_symlinks {
                None
            } else {
                Some(
                    FileMetaView {
                        rel_path: rel,
                        entry_type: raw.entry_type,
                        file_size: if raw.entry_type == EntryType::File {
                            raw.file_size
                        } else {
                            0
                        },
                    },
                )
            }
        },
    }
}

/// Compute the relative path of `path` under `root`.
pub fn rel_path_of(root: &str, path: &str) -> (r: Option<String>)
    ensures
        match spec_rel_path(root@, path@) {
            None => r is None,
            Some(rel) => r is Some && r->0@ == rel,
        },
{
    let rn = root.unicode_len();
    let pn = path.unicode_len();
    if pn <= rn {
        return None;
    }
    if pn - rn <= 1 {
        return None;
    }
    let rc = chars_of(root);
    let mut k: usize = 0;
    while k < rn
        invariant
            rc@ == root@,
            rn == root@.len(),
            pn == path@.len(),
            pn > rn + 1,
            k <= rn,
            forall|q: int| 0 <= q < k ==> path@[q] == root@[q],
        decreases rn - k,
    {
        if path.get_char(k) != rc[k] {
            proof {
                assert(path@.take(rn as int)[k as int] == path@[k as int]);
            }
            return None;
        }
        k = k + 1;
    }
    proof {
        assert(path@.take(rn as int) =~= root@) by {
            assert(forall|q: int|
                0 <= q < rn ==> #[trigger] path@.take(rn as int)[q] == path@[q]);
        }
    }
    if path.get_char(rn) != '/' {
        return None;
    }
    let tail = path.substring_char(rn + 1, pn);
    let rel = tail.to_owned();
    proof {
        assert(rel@ =~= path@.skip(rn + 1));
    }
    Some(rel)
}

/// Strictly ascending by relative path.
pub open spec fn sorted_strict(s: Seq<FileMetaView>) -> bool {
    forall|i: int, j: int|
        0 <= i < j < s.len() ==> lex_lt(#[trigger] s[i].rel_path, #[trigger] s[j].rel_path)
}

/// Whether some entry of `s` carries the relative path `rel`.
pub open spec fn has_rel(s: Seq<FileMetaView>, rel: Seq<char>) -> bool {
    exists|i: int| 0 <= i < s.len() && #[trigger] s[i].rel_path == rel
}

/// The ordered table of one scan: metas with their source handles.
pub struct ScanTable {
    entries: Vec<(FileMeta, String)>,
}

impl ScanTable {
    /// The metas of the table, in table order.
    pub closed spec fn metas(&self) -> Seq<FileMetaView> {
        self.entries@.map_values(|e: (FileMeta, String)| e.0@)
    }

    /// The source handle at each position, in table order.
    pub closed spec fn handles(&self) -> Seq<Seq<char>> {
        self.entries@.map_values(|e: (FileMeta, String)| e.1@)
    }

    /// The table is strictly ordered by relative path.
    pub open spec fn wf(&self) -> bool {
        sorted_strict(self.metas())
    }

    /// An empty table.
    pub fn new() -> (r: Self)
        ensures
            r.wf(),
            r.metas().len() == 0,
    {
        let r = ScanTable { entries: Vec::new() };
        proof {
            assert(r.metas() =~= Seq::<FileMetaView>::empty());
        }
        r
    }

    /// How many entries the table holds.
    pub fn len(&self) -> (r: usize)
        ensures
            r == self.metas().len(),
    {
        self.entries.len()
    }

    /// The meta at one position.
    pub fn meta_at(&self, i: usize) -> (r: &FileMeta)
        requires
            i < self.metas().len(),
        ensures
            r@ == self.metas()[i as int],
    {
        &self.entries[i].0
    }

    /// The source handle at one position.
    pub fn handle_at(&self, i: usize) -> (r: &str)
        requires
            i < self.metas().len(),
        ensures
            r@ == self.handles()[i as int],
    {
        self.entries[i].1.as_str()
    }

    /// The position of the entry with the given relative path, if any.
    pub fn lookup(&self, rel_path: &str) -> (r: Option<usize>)
        ensures
            match r {
                Some(i) => i < self.metas().len() && self.metas()[i as int].rel_path == rel_path@,
                None => !has_rel(self.metas(), rel_path@),
            },
    {
        let target = chars_of(rel_path);
        let mut i: usize = 0;
        while i < self.entries.len()
            invariant
                target@ == rel_path@,
                i <= self.entries.len(),
                self.metas().len() == self.entries.len(),
                forall|q: int| 0 <= q < i ==> #[trigger] self.metas()[q].rel_path != rel_path@,
            decreases self.entries.len() - i,
        {
            let cur = chars_of(self.entries[i].0.rel_path());
            if chars_eq(&cur, &target) {
                return Some(i);
            }
            i = i + 1;
        }
        None
    }

    /// A copy of the metas, in table order: the `ClearDir` payload.
    pub fn metas_vec(&self) -> (r: Vec<FileMeta>)
        ensures
            metas_view(r@) == self.metas(),
    {
        let mut r: Vec<FileMeta> = Vec::new();
        let mut i: usize = 0;
        proof {
            assert(metas_view(r@) =~= self.metas().take(0));
        }
        while i < self.entries.len()
            invariant
                i <= self.entries.len(),
                self.metas().len() == self.entries.len(),
                r@.len() == i,
                metas_view(r@) == self.metas().take(i as int),
            decreases self.entries.len() - i,
        {
            let ghost oldr = r@;
            r.push(self.entries[i].0.duplicate());
            i = i + 1;
            proof {
                assert(metas_view(r@) =~= self.metas().take(i as int)) by {
                    assert forall|q: int| 0 <= q < i implies metas_view(r@)[q]
                        == self.metas().take(i as int)[q] by {
                        assert(metas_view(r@)[q] == r@[q]@);
                        assert(self.metas()[q] == self.entries@[q].0@);
                        if q < i - 1 {
                            assert(r@[q] == oldr[q]);
                            assert(metas_view(oldr)[q] == oldr[q]@);
                            assert(metas_view(oldr)[q] == self.metas().take((i - 1) as int)[q]);
                        } else {
                            assert(r@[q]@ == self.entries@[q].0@);
                        }
                    }
                    assert(metas_view(r@).len() == i);
                }
            }
        }
        proof {
            assert(self.metas().take(self.metas().len() as int) =~= self.metas());
        }
        r
    }

    /// Add one entry, keeping the order; an already-present path is left as
    /// it was.
    fn insert(&mut self, meta: FileMeta, handle: String)
        requires
            old(self).wf(),
        ensures
            final(self).wf(),
            has_rel(old(self).metas(), meta@.rel_path) ==> *final(self) == *old(self),
            !has_rel(old(self).metas(), meta@.rel_path) ==> (exists|p: int|
                0 <= p <= old(self).metas().len() && final(self).metas() == old(
                    self,
                ).metas().insert(p, meta@) && final(self).handles() == old(self).handles().insert(
                    p,
                    handle@,
                )),
    {
        let new_rel = chars_of(meta.rel_path());
        let mut pos: usize = 0;
        while pos < self.entries.len()
            invariant_except_break
                new_rel@ == meta@.rel_path,
                pos <= self.entries.len(),
                self.metas().len() == self.entries.len(),
                *self == *old(self),
                old(self).wf(),
                forall|q: int|
                    0 <= q < pos ==> lex_lt(#[trigger] self.metas()[q].rel_path, meta@.rel_path),
            ensures
                new_rel@ == meta@.rel_path,
                pos <= self.entries.len(),
                self.metas().len() == self.entries.len(),
                *self == *old(self),
                forall|q: int|
                    0 <= q < pos ==> lex_lt(#[trigger] self.metas()[q].rel_path, meta@.rel_path),
                pos < self.entries.len() ==> lex_lt(
                    meta@.rel_path,
                    self.metas()[pos as int].rel_path,
                ),
            decreases self.entries.len() - pos,
        {
            let cur = chars_of(self.entries[pos].0.rel_path());
            proof {
                assert(self.metas()[pos as int] == self.entries@[pos as int].0@);
            }
            if chars_eq(&cur, &new_rel) {
                proof {
                    assert(has_rel(self.metas(), meta@.rel_path)) by {
                        assert(self.metas()[pos as int].rel_path == meta@.rel_path);
                    }
                }
                return ;
            }
            if chars_lt(&new_rel, &cur) {
                break ;
            }
            proof {
                lemma_lex_lt_connex(meta@.rel_path, self.metas()[pos as int].rel_path);
            }
            pos = pos + 1;
        }
        let ghost oldm = self.metas();
        let ghost oldh = self.handles();
        let ghost posg = pos as int;
        let ghost mv = meta@;
        let ghost hv = handle@;
        self.entries.insert(pos, (meta, handle));
        proof {
            let newm = self.metas();
            let newh = self.handles();
            assert(newm =~= oldm.insert(posg, mv)) by {
                oldm.insert_ensures(posg, mv);
                assert(forall|i: int|
                    0 <= i < newm.len() ==> #[trigger] newm[i] == self.entries@[i].0@);
            }
            assert(newh =~= oldh.insert(posg, hv)) by {
                oldh.insert_ensures(posg, hv);
                assert(forall|i: int|
                    0 <= i < newh.len() ==> #[trigger] newh[i] == self.entries@[i].1@);
            }
            assert(sorted_strict(newm)) by {
                oldm.insert_ensures(posg, mv);
                assert forall|i: int, j: int| 0 <= i < j < newm.len() implies lex_lt(
                    #[trigger] newm[i].rel_path,
                    #[trigger] newm[j].rel_path,
                ) by {
                    if i < posg && j < posg {
                    } else if i < posg && j == posg {
                    } else if i < posg && j > posg {
                        assert(newm[i] == oldm[i] && newm[j] == oldm[j - 1]);
                        assert(lex_lt(oldm[i].rel_path, oldm[j - 1].rel_path));
                    } else if i == posg {
                        assert(newm[i] == mv && newm[j] == oldm[j - 1]);
                        assert(lex_lt(mv.rel_path, oldm[posg].rel_path));
                        if j - 1 == posg {
                        } else {
                            assert(lex_lt(oldm[posg].rel_path, oldm[j - 1].rel_path));
                            lemma_lex_lt_trans(
                                mv.rel_path,
                                oldm[posg].rel_path,
                                oldm[j - 1].rel_path,
                            );
                        }
                    } else {
                        assert(newm[i] == oldm[i - 1] && newm[j] == oldm[j - 1]);
                    }
                }
            }
            assert(!has_rel(oldm, mv.rel_path)) by {
                if has_rel(oldm, mv.rel_path) {
                    let q = choose|q: int|
                        0 <= q < oldm.len() && #[trigger] oldm[q].rel_path == mv.rel_path;
                    crate::text::lemma_lex_lt_irrefl(mv.rel_path);
                    if q > posg {
                        lemma_lex_lt_trans(mv.rel_path, oldm[posg].rel_path, oldm[q].rel_path);
                    }
                }
            }
            assert(0 <= posg <= oldm.len() && newm == oldm.insert(posg, mv) && newh == oldh.insert(
                posg,
                hv,
            ));
        }
    }
}

/// The table holds exactly what the first `k` raw entries contribute: a
/// relative path is present iff some kept raw entry among them carries it,
/// and every table entry, with its handle, comes from one of them.
pub open spec fn scan_covers(
    root: Seq<char>,
    raws: Seq<RawEntry>,
    include_symlinks: bool,
    t_metas: Seq<FileMetaView>,
    t_handles: Seq<Seq<char>>,
    k: int,
) -> bool {
    &&& (forall|rel: Seq<char>|
        has_rel(t_metas, rel) <==> (exists|q: int|
            #![trigger raws[q]]
            0 <= q < k && match accepted_entry(root, raws[q], include_symlinks) {
                Some(m2) => m2.rel_path == rel,
                None => false,
            }))
    &&& (forall|i: int|
        #![trigger t_metas[i]]
        0 <= i < t_metas.len() ==> (exists|q: int|
            #![trigger raws[q]]
            0 <= q < k && accepted_entry(root, raws[q], include_symlinks) == Some(t_metas[i])
                && t_handles[i] == raws[q].path@))
}

/// A raw entry that adds nothing new widens the coverage bound.
proof fn lemma_covers_widen(
    root: Seq<char>,
    raws: Seq<RawEntry>,
    include_symlinks: bool,
    t_metas: Seq<FileMetaView>,
    t_handles: Seq<Seq<char>>,
    k: int,
)
    requires
        0 <= k < raws.len(),
        scan_covers(root, raws, include_symlinks, t_metas, t_handles, k),
        match accepted_entry(root, raws[k], include_symlinks) {
            Some(mv) => has_rel(t_metas, mv.rel_path),
            None => true,
        },
    ensures
        scan_covers(root, raws, include_symlinks, t_metas, t_handles, k + 1),
{
    assert forall|rel: Seq<char>| has_rel(t_metas, rel) implies (exists|q: int|
        #![trigger raws[q]]
        0 <= q < k + 1 && match accepted_entry(root, raws[q], include_symlinks) {
            Some(m2) => m2.rel_path == rel,
            None => false,
        }) by {
        let w = choose|q: int|
            #![trigger raws[q]]
            0 <= q < k && match accepted_entry(root, raws[q], include_symlinks) {
                Some(m2) => m2.rel_path == rel,
                None => false,
            };
        assert(0 <= w < k + 1);
    }
    assert forall|rel: Seq<char>|
        (exists|q: int|
            #![trigger raws[q]]
            0 <= q < k + 1 && match accepted_entry(root, raws[q], include_symlinks) {
                Some(m2) => m2.rel_path == rel,
                None => false,
            }) implies has_rel(t_metas, rel) by {
        let w = choose|q: int|
            #![trigger raws[q]]
            0 <= q < k + 1 && match accepted_entry(root, raws[q], include_symlinks) {
                Some(m2) => m2.rel_path == rel,
                None => false,
            };
        if w < k {
        } else {
            assert(match accepted_entry(root, raws[k], include_symlinks) {
                Some(m2) => m2.rel_path == rel,
                None => false,
            });
        }
    }
    assert forall|i: int| #![trigger t_metas[i]] 0 <= i < t_metas.len() implies (exists|q: int|
        #![trigger raws[q]]
        0 <= q < k + 1 && accepted_entry(root, raws[q], include_symlinks) == Some(t_metas[i])
            && t_handles[i] == raws[q].path@) by {
        let w = choose|q: int|
            #![trigger raws[q]]
            0 <= q < k && accepted_entry(root, raws[q], include_symlinks) == Some(t_metas[i])
                && t_handles[i] == raws[q].path@;
        assert(0 <= w < k + 1);
    }
}

/// Inserting the meta of the `k`-th raw entry extends the coverage bound.
proof fn lemma_covers_extend(
    root: Seq<char>,
    raws: Seq<RawEntry>,
    include_symlinks: bool,
    prem: Seq<FileMetaView>,
    preh: Seq<Seq<char>>,
    k: int,
    mv: FileMetaView,
    hv: Seq<char>,
    pos: int,
)
    requires
        0 <= k < raws.len(),
        scan_covers(root, raws, include_symlinks, prem, preh, k),
        accepted_entry(root, raws[k], include_symlinks) == Some(mv),
        hv == raws[k].path@,
        0 <= pos <= prem.len(),
        preh.len() == prem.len(),
    ensures
        scan_covers(
            root,
            raws,
            include_symlinks,
            prem.insert(pos, mv),
            preh.insert(pos, hv),
            k + 1,
        ),
{
    let newm = prem.insert(pos, mv);
    let newh = preh.insert(pos, hv);
    prem.insert_ensures(pos, mv);
    preh.insert_ensures(pos, hv);
    assert forall|i: int| #![trigger newm[i]] 0 <= i < newm.len() implies (exists|q: int|
        #![trigger raws[q]]
        0 <= q < k + 1 && accepted_entry(root, raws[q], include_symlinks) == Some(newm[i])
            && newh[i] == raws[q].path@) by {
        if i == pos {
            assert(newm[i] == mv && newh[i] == hv);
            assert(0 <= k < k + 1 && accepted_entry(root, raws[k], include_symlinks) == Some(
                newm[i],
            ) && newh[i] == raws[k].path@);
        } else {
            let iold: int = if i < pos {
                i
            } else {
                i - 1
            };
            assert(newm[i] == prem[iold] && newh[i] == preh[iold]);
            let rw = choose|q: int|
                #![trigger raws[q]]
                0 <= q < k && accepted_entry(root, raws[q], include_symlinks) == Some(prem[iold])
                    && preh[iold] == raws[q].path@;
            assert(0 <= rw < k + 1 && accepted_entry(root, raws[rw], include_symlinks) == Some(
                newm[i],
            ) && newh[i] == raws[rw].path@);
        }
    }
    assert forall|rel: Seq<char>| has_rel(newm, rel) implies (exists|q: int|
        #![trigger raws[q]]
        0 <= q < k + 1 && match accepted_entry(root, raws[q], include_symlinks) {
            Some(m2) => m2.rel_path == rel,
            None => false,
        }) by {
        let i = choose|i: int| 0 <= i < newm.len() && #[trigger] newm[i].rel_path == rel;
        if i == pos {
            assert(match accepted_entry(root, raws[k], include_symlinks) {
                Some(m2) => m2.rel_path == rel,
                None => false,
            });
        } else {
            let iold: int = if i < pos {
                i
            } else {
                i - 1
            };
            assert(prem[iold].rel_path == rel);
            assert(has_rel(prem, rel));
            let rw = choose|q: int|
                #![trigger raws[q]]
                0 <= q < k && match accepted_entry(root, raws[q], include_symlinks) {
                    Some(m2) => m2.rel_path == rel,
                    None => false,
                };
            assert(0 <= rw < k + 1);
        }
    }
    assert forall|rel: Seq<char>|
        (exists|q: int|
            #![trigger raws[q]]
            0 <= q < k + 1 && match accepted_entry(root, raws[q], include_symlinks) {
                Some(m2) => m2.rel_path == rel,
                None => false,
            }) implies has_rel(newm, rel) by {
        let rw = choose|q: int|
            #![trigger raws[q]]
            0 <= q < k + 1 && match accepted_entry(root, raws[q], include_symlinks) {
                Some(m2) => m2.rel_path == rel,
                None => false,
            };
        if rw < k {
            assert(has_rel(prem, rel));
            let i = choose|i: int| 0 <= i < prem.len() && #[trigger] prem[i].rel_path == rel;
            if i < pos {
                assert(newm[i].rel_path == rel);
            } else {
                assert(newm[i + 1].rel_path == rel);
            }
        } else {
            assert(rel == mv.rel_path);
            assert(newm[pos].rel_path == rel);
        }
    }
}

/// Build the scan table from the walker's raw entries.
///
/// An entry is kept exactly when its path lies strictly under the root and
/// it is not an unwanted symlink; of several raw entries with one relative
/// path the first is kept.  The table is strictly ordered by relative path
/// and covers exactly the kept entries.
pub fn build_scan_table(root: &str, raws: &Vec<RawEntry>, include_symlinks: bool) -> (r: ScanTable)
    ensures
        r.wf(),
        scan_covers(
            root@,
            raws@,
            include_symlinks,
            r.metas(),
            r.handles(),
            raws@.len() as int,
        ),
{
    let mut table = ScanTable::new();
    proof {
        assert(scan_covers(root@, raws@, include_symlinks, table.metas(), table.handles(), 0));
    }
    let mut k: usize = 0;
    while k < raws.len()
        invariant
            table.wf(),
            k <= raws.len(),
            scan_covers(
                root@,
                raws@,
                include_symlinks,
                table.metas(),
                table.handles(),
                k as int,
            ),
        decreases raws.len() - k,
    {
        let raw = &raws[k];
        let ghost kg = k as int;
        let kept: Option<FileMeta> = match rel_path_of(root, raw.path.as_str()) {
            None => None,
            Some(rel) => {
                if raw.entry_type == EntryType::SymLink && !include_symlinks {
                    None
                } else {
                    let size: u64 = if raw.entry_type == EntryType::File {
                        raw.file_size
                    } else {
                        0
                    };
                    Some(FileMeta::new(rel, raw.entry_type, size))
                }
            },
        };
        match kept {
            None => {
                proof {
                    assert(accepted_entry(root@, raws@[kg], include_symlinks) is None);
                    lemma_covers_widen(
                        root@,
                        raws@,
                        include_symlinks,
                        table.metas(),
                        table.handles(),
                        kg,
                    );
                }
            },
            Some(meta) => {
                proof {
                    assert(accepted_entry(root@, raws@[kg], include_symlinks) == Some(meta@));
                }
                let ghost mv = meta@;
                let ghost prem = table.metas();
                let ghost preh = table.handles();
                proof {
                    assert(prem.len() == preh.len());
                }
                let handle = raw.path.clone();
                let ghost hv = handle@;
                table.insert(meta, handle);
                proof {
                    assert(hv == raws@[kg].path@);
                    if has_rel(prem, mv.rel_path) {
                        assert(table.metas() == prem && table.handles() == preh);
                        lemma_covers_widen(
                            root@,
                            raws@,
                            include_symlinks,
                            table.metas(),
                            table.handles(),
                            kg,
                        );
                    } else {
                        let pp = choose|p: int|
                            0 <= p <= prem.len() && table.metas() == prem.insert(p, mv)
                                && table.handles() == preh.insert(p, hv);
                        lemma_covers_extend(
                            root@,
                            raws@,
                            include_symlinks,
                            prem,
                            preh,
                            kg,
                            mv,
                            hv,
                            pp,
                        );
                    }
                }
            },
        }
        k = k + 1;
    }
    table
}

/// Relative paths in a well-formed table are unique.
pub proof fn lemma_scan_unique(t: &ScanTable)
    requires
        t.wf(),
    ensures
        forall|i: int, j: int|
            0 <= i < j < t.metas().len() ==> #[trigger] t.metas()[i].rel_path
                != #[trigger] t.metas()[j].rel_path,
{
    assert forall|i: int, j: int| 0 <= i < j < t.metas().len() implies #[trigger] t.metas()[i].rel_path
        != #[trigger] t.metas()[j].rel_path by {
        crate::text::lemma_lex_lt_irrefl(t.metas()[i].rel_path);
        if t.metas()[i].rel_path == t.metas()[j].rel_path {
            assert(lex_lt(t.metas()[i].rel_path, t.metas()[j].rel_path));
        }
    }
}


/// A scan never lists the root itself: every entry's relative path is the
/// nonempty part of a walked path strictly under the root.
pub proof fn lemma_scan_excludes_root(
    root: Seq<char>,
    raws: Seq<RawEntry>,
    include_symlinks: bool,
    t_metas: Seq<FileMetaView>,
    t_handles: Seq<Seq<char>>,
)
    requires
        scan_covers(root, raws, include_symlinks, t_metas, t_handles, raws.len() as int),
    ensures
        forall|i: int| 0 <= i < t_metas.len() ==> (#[trigger] t_metas[i]).rel_path.len() > 0,
{
    assert forall|i: int| 0 <= i < t_metas.len() implies (#[trigger] t_metas[i]).rel_path.len()
        > 0 by {
        let w = choose|q: int|
            #![trigger raws[q]]
            0 <= q < raws.len() && accepted_entry(root, raws[q], include_symlinks) == Some(
                t_metas[i],
            ) && t_handles[i] == raws[q].path@;
        assert(spec_rel_path(root, raws[w].path@) is Some);
    }
}

} // verus!

