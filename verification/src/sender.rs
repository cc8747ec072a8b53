//! The sender's reconciliation engine.
//!
//! After the scan the sender sends one `ClearDir` carrying the full meta
//! list and waits; until the matching `ClearDirDone` has been read, every
//! other response is ignored and no further request goes out.
//! `ClearDirDone` brings the paths the receiver could not remove: the
//! engine emits one `CreateFile` for every scanned path not among them, in
//! table order, keeps that list, and moves on.  From then on each
//! `CreateSuccess` for a scanned regular file outside the kept list starts
//! one content pump for that path, which reads the file and emits its
//! `WriteFile` chunks (see `plan_write_requests`); content is never sent
//! for a kept path.  Failure responses and chunk acknowledgements require
//! no further action; chunk-level retry is out of scope.  The surrounding
//! process performs the sends, reads and spawns that the returned actions
//! name.

use vstd::prelude::*;

use crate::error::AppError;
use crate::model::{
    metas_view, EntryType, FileMeta, FileMetaView, WsRequest, WsRequestView, WsResponse,
    WsResponseView,
};
use crate::scanner::{has_rel, ScanTable};
use crate::text::{chars_eq, chars_of};

verus! {

/// Where the sender stands in its protocol.
#[derive(Debug, Clone, Copy, PartialEq, Eq, Structural)]
pub enum SenderPhase {
    /// `ClearDir` was sent; further requests are suppressed until its
    /// response arrives.
    AwaitClearDirDone,
    /// Creates and writes are flowing.
    CreatingAndWriting,
}

/// Mathematical value of a [`SenderAction`].
pub ghost enum SenderActionView {
    SendRequest(WsRequestView),
    PumpFile(FileMetaView, Seq<char>),
}

/// One step the surrounding process is to perform.
#[derive(Debug)]
pub enum SenderAction {
    /// Enqueue this request on the outbound queue.
    SendRequest(WsRequest),
    /// Read the file at `handle` and stream its chunks for `meta`.
    PumpFile { meta: FileMeta, handle: String },
}

impl View for SenderAction {
    type V = SenderActionView;

    open spec fn view(&self) -> SenderActionView {
        match self {
            SenderAction::SendRequest(req) => SenderActionView::SendRequest(req@),
            SenderAction::PumpFile { meta, handle } => SenderActionView::PumpFile(
                meta@,
                handle@,
            ),
        }
    }
}

/// The views of a list of actions, element by element.
pub open spec fn actions_view(acts: Seq<SenderAction>) -> Seq<SenderActionView> {
    acts.map_values(|a: SenderAction| a@)
}

/// The metas to create: those of the scan, in order, without the paths the
/// receiver reported as undeletable.
pub open spec fn create_plan(metas: Seq<FileMetaView>, skip: Seq<FileMetaView>) -> Seq<
    FileMetaView,
>
    decreases metas.len(),
{
    if metas.len() == 0 {
        Seq::<FileMetaView>::empty()
    } else if has_rel(skip, metas[0].rel_path) {
        create_plan(metas.drop_first(), skip)
    } else {
        seq![metas[0]] + create_plan(metas.drop_first(), skip)
    }
}

/// Peeling the last meta off a nonempty plan input.
proof fn lemma_create_plan_snoc(metas: Seq<FileMetaView>, skip: Seq<FileMetaView>)
    requires
        metas.len() > 0,
    ensures
        create_plan(metas, skip) == create_plan(metas.drop_last(), skip) + (if has_rel(
            skip,
            metas.last().rel_path,
        ) {
            Seq::<FileMetaView>::empty()
        } else {
            seq![metas.last()]
        }),
    decreases metas.len(),
{
    let tail = if has_rel(skip, metas.last().rel_path) {
        Seq::<FileMetaView>::empty()
    } else {
        seq![metas.last()]
    };
    if metas.len() == 1 {
        assert(metas.drop_first() =~= Seq::<FileMetaView>::empty());
        assert(metas.drop_last() =~= Seq::<FileMetaView>::empty());
        assert(create_plan(metas, skip) =~= create_plan(metas.drop_last(), skip) + tail);
    } else {
        lemma_create_plan_snoc(metas.drop_first(), skip);
        assert(metas.drop_first().drop_last() =~= metas.drop_last().drop_first());
        assert(metas.drop_last()[0] == metas[0]);
        assert(metas.drop_first().last() == metas.last());
        if has_rel(skip, metas[0].rel_path) {
            assert(create_plan(metas.drop_last(), skip) == create_plan(
                metas.drop_last().drop_first(),
                skip,
            ));
        } else {
            assert(create_plan(metas.drop_last(), skip) == seq![metas[0]] + create_plan(
                metas.drop_last().drop_first(),
                skip,
            ));
        }
        assert(create_plan(metas, skip) =~= create_plan(metas.drop_last(), skip) + tail);
    }
}

/// Whether the list carries a meta with this relative path.
fn metas_contain(metas: &Vec<FileMeta>, rel: &Vec<char>) -> (r: bool)
    ensures
        r == has_rel(metas_view(metas@), rel@),
{
    let mut i: usize = 0;
    while i < metas.len()
        invariant
            i <= metas.len(),
            metas_view(metas@).len() == metas@.len(),
            forall|q: int|
                0 <= q < i ==> (#[trigger] metas_view(metas@)[q].rel_path) != rel@,
        decreases metas.len() - i,
    {
        let cur = chars_of(metas[i].rel_path());
        proof {
            assert(metas_view(metas@)[i as int] == metas@[i as int]@);
        }
        if chars_eq(&cur, rel) {
            proof {
                assert(metas_view(metas@)[i as int].rel_path == rel@);
            }
            return true;
        }
        i = i + 1;
    }
    false
}

/// An element-wise copy of a meta list; its contract pins the values.
fn copy_metas(metas: &Vec<FileMeta>) -> (r: Vec<FileMeta>)
    ensures
        metas_view(r@) == metas_view(metas@),
{
    let mut r: Vec<FileMeta> = Vec::new();
    let mut i: usize = 0;
    proof {
        assert(metas_view(r@) =~= metas_view(metas@).take(0));
    }
    while i < metas.len()
        invariant
            i <= metas.len(),
            metas_view(metas@).len() == metas@.len(),
            r@.len() == i,
            metas_view(r@) == metas_view(metas@).take(i as int),
        decreases metas.len() - i,
    {
        let ghost oldr = r@;
        r.push(metas[i].duplicate());
        i = i + 1;
        proof {
            assert(metas_view(r@) =~= metas_view(metas@).take(i as int)) by {
                assert forall|q: int| 0 <= q < i implies metas_view(r@)[q] == metas_view(
                    metas@,
                ).take(i as int)[q] by {
                    assert(metas_view(r@)[q] == r@[q]@);
                    assert(metas_view(metas@)[q] == metas@[q]@);
                    if q < i - 1 {
                        assert(r@[q] == oldr[q]);
                        assert(metas_view(oldr)[q] == oldr[q]@);
                        assert(metas_view(oldr)[q] == metas_view(metas@).take((i - 1) as int)[q]);
                    } else {
                        assert(r@[q]@ == metas@[q]@);
                    }
                }
                assert(metas_view(r@).len() == i);
            }
        }
    }
    proof {
        assert(metas_view(metas@).take(metas@.len() as int) =~= metas_view(metas@));
    }
    r
}

/// The sender engine: the scan table, the protocol phase, and the paths
/// the receiver reported as kept.
pub struct SenderEngine {
    table: ScanTable,
    phase: SenderPhase,
    skip: Vec<FileMeta>,
}

impl SenderEngine {
    /// The scanned metas, in table order.
    pub closed spec fn table_metas(&self) -> Seq<FileMetaView> {
        self.table.metas()
    }

    /// The scanned source handles, in table order.
    pub closed spec fn table_handles(&self) -> Seq<Seq<char>> {
        self.table.handles()
    }

    /// The current protocol phase.
    pub closed spec fn phase(&self) -> SenderPhase {
        self.phase
    }

    /// The table is well formed.
    pub closed spec fn wf(&self) -> bool {
        self.table.wf()
    }

    /// The paths the receiver reported as undeletable; content for them is
    /// never resent.
    pub closed spec fn skip_metas(&self) -> Seq<FileMetaView> {
        metas_view(self.skip@)
    }

    /// Start a session over one scan; the first request is the `ClearDir`.
    pub fn new(table: ScanTable) -> (r: Self)
        requires
            table.wf(),
        ensures
            r.wf(),
            r.phase() == SenderPhase::AwaitClearDirDone,
            r.table_metas() == table.metas(),
            r.table_handles() == table.handles(),
            r.skip_metas().len() == 0,
    {
        let r = SenderEngine { table, phase: SenderPhase::AwaitClearDirDone, skip: Vec::new() };
        proof {
            assert(r.skip_metas() =~= Seq::<FileMetaView>::empty());
        }
        r
    }

    /// The opening request of the session: the authoritative path list.
    pub fn initial_request(&self) -> (r: WsRequest)
        ensures
            r@ == WsRequestView::ClearDir(self.table_metas()),
    {
        WsRequest::ClearDir(self.table.metas_vec())
    }

    /// Decide what to do with one response from the receiver.
    ///
    /// While still awaiting `ClearDirDone`, every other response yields no
    /// action: requests are suppressed until that response has been read.
    pub fn on_response(&mut self, resp: &WsResponse) -> (acts: Vec<SenderAction>)
        requires
            old(self).wf(),
        ensures
            final(self).wf(),
            final(self).table_metas() == old(self).table_metas(),
            final(self).table_handles() == old(self).table_handles(),
            match resp@ {
                WsResponseView::ClearDirDone(skip) => {
                    if old(self).phase() == SenderPhase::AwaitClearDirDone {
                        &&& final(self).phase() == SenderPhase::CreatingAndWriting
                        &&& final(self).skip_metas() == skip
                        &&& acts@.len() == create_plan(old(self).table_metas(), skip).len()
                        &&& (forall|q: int|
                            0 <= q < acts@.len() ==> #[trigger] actions_view(acts@)[q]
                                == SenderActionView::SendRequest(
                                WsRequestView::CreateFile(
                                    create_plan(old(self).table_metas(), skip)[q],
                                ),
                            ))
                    } else {
                        &&& final(self).phase() == old(self).phase()
                        &&& final(self).skip_metas() == old(self).skip_metas()
                        &&& acts@.len() == 0
                    }
                },
                WsResponseView::CreateSuccess(m) => {
                    &&& final(self).phase() == old(self).phase()
                    &&& final(self).skip_metas() == old(self).skip_metas()
                    &&& if old(self).phase() == SenderPhase::CreatingAndWriting && m.entry_type
                        == EntryType::File && has_rel(old(self).table_metas(), m.rel_path)
                        && !has_rel(old(self).skip_metas(), m.rel_path) {
                        exists|i: int|
                            0 <= i < old(self).table_metas().len() && (#[trigger] old(
                                self,
                            ).table_metas()[i]).rel_path == m.rel_path && actions_view(acts@)
                                == seq![
                                SenderActionView::PumpFile(
                                    old(self).table_metas()[i],
                                    old(self).table_handles()[i],
                                ),
                            ]
                    } else {
                        acts@.len() == 0
                    }
                },
                _ => final(self).phase() == old(self).phase() && final(self).skip_metas() == old(
                    self,
                ).skip_metas() && acts@.len() == 0,
            },
    {
        match resp {
            WsResponse::ClearDirDone(skip) => {
                if !matches!(self.phase, SenderPhase::AwaitClearDirDone) {
                    return Vec::new();
                }
                self.phase = SenderPhase::CreatingAndWriting;
                self.skip = copy_metas(skip);
                let ghost metas = self.table.metas();
                let ghost skipv = metas_view(skip@);
                proof {
                    assert(self.skip_metas() == skipv);
                }
                let mut acts: Vec<SenderAction> = Vec::new();
                let mut i: usize = 0;
                proof {
                    assert(metas.take(0) =~= Seq::<FileMetaView>::empty());
                    assert(create_plan(metas.take(0), skipv).len() == 0);
                    assert(actions_view(acts@).len() == 0);
                }
                let n = self.table.len();
                while i < n
                    invariant
                        n == metas.len(),
                        metas == self.table.metas(),
                        skipv == metas_view(skip@),
                        self.table.wf(),
                        i <= n,
                        acts@.len() == create_plan(metas.take(i as int), skipv).len(),
                        forall|q: int|
                            0 <= q < acts@.len() ==> #[trigger] actions_view(acts@)[q]
                                == SenderActionView::SendRequest(
                                WsRequestView::CreateFile(create_plan(metas.take(i as int), skipv)[q]),
                            ),
                    decreases n - i,
                {
                    let meta = self.table.meta_at(i);
                    let rel = chars_of(meta.rel_path());
                    let ghost oldacts = acts@;
                    if !metas_contain(skip, &rel) {
                        let req = WsRequest::CreateFile(meta.duplicate());
                        acts.push(SenderAction::SendRequest(req));
                    }
                    i = i + 1;
                    proof {
                        lemma_create_plan_snoc(metas.take(i as int), skipv);
                        assert(metas.take(i as int).drop_last() =~= metas.take(i - 1));
                        assert(metas.take(i as int).last() == metas[i - 1]);
                        let plan_prev = create_plan(metas.take(i - 1), skipv);
                        let plan_i = create_plan(metas.take(i as int), skipv);
                        assert(forall|q: int|
                            0 <= q < acts@.len() ==> #[trigger] actions_view(acts@)[q]
                                == acts@[q]@);
                        assert(forall|q: int|
                            0 <= q < oldacts.len() ==> #[trigger] actions_view(oldacts)[q]
                                == oldacts[q]@);
                        if has_rel(skipv, metas[i - 1].rel_path) {
                            assert(plan_i =~= plan_prev);
                            assert(acts@ == oldacts);
                        } else {
                            assert(plan_i =~= plan_prev + seq![metas[i - 1]]);
                            assert(acts@.len() == oldacts.len() + 1);
                            assert(acts@.last()@ == SenderActionView::SendRequest(
                                WsRequestView::CreateFile(metas[i - 1]),
                            ));
                        }
                        assert forall|q: int| 0 <= q < acts@.len() implies #[trigger] actions_view(
                            acts@,
                        )[q] == SenderActionView::SendRequest(
                            WsRequestView::CreateFile(plan_i[q]),
                        ) by {
                            if q < oldacts.len() {
                                assert(acts@[q] == oldacts[q]);
                                assert(actions_view(oldacts)[q] == SenderActionView::SendRequest(
                                    WsRequestView::CreateFile(plan_prev[q]),
                                ));
                                assert(plan_i[q] == plan_prev[q]);
                            } else {
                                assert(acts@[q] == acts@.last());
                                assert(plan_i[q] == metas[i - 1]);
                            }
                        }
                    }
                }
                proof {
                    assert(metas.take(n as int) =~= metas);
                }
                acts
            },
            WsResponse::CreateSuccess(m) => {
                if !matches!(self.phase, SenderPhase::CreatingAndWriting) {
                    return Vec::new();
                }
                if !m.is_file() {
                    return Vec::new();
                }
                let rel = chars_of(m.rel_path());
                if metas_contain(&self.skip, &rel) {
                    return Vec::new();
                }
                match self.table.lookup(m.rel_path()) {
                    None => Vec::new(),
                    Some(i) => {
                        let meta = self.table.meta_at(i).duplicate();
                        let handle = self.table.handle_at(i).to_owned();
                        let mut acts: Vec<SenderAction> = Vec::new();
                        let ghost mv = meta@;
                        let ghost hv = handle@;
                        acts.push(SenderAction::PumpFile { meta, handle });
                        proof {
                            assert(has_rel(self.table.metas(), m@.rel_path)) by {
                                assert(self.table.metas()[i as int].rel_path == m@.rel_path);
                            }
                            assert(actions_view(acts@) =~= seq![
                                SenderActionView::PumpFile(
                                    self.table.metas()[i as int],
                                    self.table.handles()[i as int],
                                ),
                            ]);
                        }
                        acts
                    },
                }
            },
            _ => Vec::new(),
        }
    }
}

/// Named for what `url::Url::parse` decides: whether a string is an
/// acceptable absolute URL.
pub uninterp spec fn url_accepted(s: Seq<char>) -> bool;

#[verifier::external_type_specification]
#[verifier::external_body]
pub struct ExUrl(url::Url);

#[verifier::external_type_specification]
#[verifier::external_body]
pub struct ExParseError(url::ParseError);

/// Relies on `url::Url::parse`: the result is a function of the input
/// string alone, and it is `Ok` exactly when the string parses as an
/// absolute URL.
#[verifier::external_body]
fn parse_ws_url(addr: &str) -> (r: Result<url::Url, url::ParseError>)
    ensures
        r is Ok <==> url_accepted(addr@),
{
    url::Url::parse(addr)
}

/// Check the sender's arguments: the source must be a directory and the
/// target address must parse as a URL.
///
/// The caller reports whether the source path is a directory; the address
/// goes through the URL parser and the parsed URL is handed back for the
/// connection attempt.
pub fn check_sender_args(from_dir_is_dir: bool, from_dir: &str, ws_addr: &str) -> (r: Result<
    url::Url,
    AppError,
>)
    ensures
        r is Ok <==> (from_dir_is_dir && url_accepted(ws_addr@)),
        !from_dir_is_dir ==> (r->Err_0 matches AppError::InvalidDir(d) && d@ == from_dir@),
        from_dir_is_dir && !url_accepted(ws_addr@) ==> (r->Err_0 matches
            AppError::WsAddrParseError),
{
    if !from_dir_is_dir {
        return Err(AppError::InvalidDir(from_dir.to_owned()));
    }
    match parse_ws_url(ws_addr) {
        Ok(u) => Ok(u),
        Err(_) => Err(AppError::WsAddrParseError),
    }
}

} // verus!
