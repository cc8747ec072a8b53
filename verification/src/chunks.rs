//! The sender's chunking rule.
//!
//! A file's bytes travel in fixed-size blocks, one `WriteFile` request per
//! block, each carrying the byte offset it starts at.  For a file of `n`
//! bytes and a chunk size of `c` there are exactly `ceil(n / c)` requests,
//! with offsets `0, c, 2c, …`, and their payloads concatenated in send
//! order are the file's bytes again (`lemma_chunks_reconstruct`).

use vstd::prelude::*;

use crate::model::{FileChunk, FileEntry, FileMeta, WsRequest, WsRequestView};

verus! {

/// How many chunks a content of `n` bytes fills at chunk size `c`.
pub open spec fn chunk_count(n: nat, c: nat) -> nat
    recommends
        c > 0,
{
    ((n + c - 1) / (c as int)) as nat
}

/// The payload of the chunk at index `i`.
pub open spec fn chunk_payload(content: Seq<u8>, c: nat, i: int) -> Seq<u8> {
    content.subrange(
        i * c,
        if (i + 1) * c <= content.len() {
            (i + 1) * c
        } else {
            content.len() as int
        },
    )
}

/// What one `WriteFile` request of the plan holds.
pub open spec fn is_chunk_request(
    r: WsRequestView,
    m: crate::model::FileMetaView,
    content: Seq<u8>,
    c: nat,
    i: int,
) -> bool {
    match r {
        WsRequestView::WriteFile(e) => {
            &&& e.file_meta == m
            &&& match e.file_chunk {
                Some(ch) => ch.offset == i * c && ch.payload == chunk_payload(content, c, i),
                None => false,
            }
        },
        _ => false,
    }
}

/// The payloads of the first `k` chunks, concatenated in order.
pub open spec fn chunks_concat(content: Seq<u8>, c: nat, k: int) -> Seq<u8>
    decreases k,
{
    if k <= 0 {
        Seq::<u8>::empty()
    } else {
        chunks_concat(content, c, k - 1) + chunk_payload(content, c, k - 1)
    }
}

/// Concatenating all chunk payloads in send order rebuilds the content.
pub proof fn lemma_chunks_reconstruct(content: Seq<u8>, c: nat)
    requires
        c > 0,
    ensures
        chunks_concat(content, c, chunk_count(content.len(), c) as int) == content,
{
    let n = content.len() as int;
    let k = chunk_count(content.len(), c) as int;
    assert(k * c >= n && (k - 1) * c < n || (n == 0 && k == 0)) by (nonlinear_arith)
        requires
            c > 0,
            n >= 0,
            k == (n + c - 1) / (c as int),
    ;
    assert((k - 1) * c <= n) by (nonlinear_arith)
        requires
            c > 0,
            (k * c >= n && (k - 1) * c < n) || (n == 0 && k == 0),
    ;
    lemma_chunks_concat_prefix(content, c, k);
    if n == 0 {
        assert(chunks_concat(content, c, 0) =~= content);
    } else {
        assert(k * c >= n);
        assert(chunks_concat(content, c, k) == content.take(n));
        assert(content.take(n) =~= content);
    }
}

/// The first `k` payloads cover the content up to `k * c`.
proof fn lemma_chunks_concat_prefix(content: Seq<u8>, c: nat, k: int)
    requires
        c > 0,
        k >= 0,
        (k - 1) * c <= content.len(),
    ensures
        chunks_concat(content, c, k) == content.take(
            if k * c <= content.len() {
                k * c
            } else {
                content.len() as int
            },
        ),
    decreases k,
{
    let n = content.len() as int;
    if k == 0 {
        assert(content.take(0) =~= Seq::<u8>::empty());
    } else {
        assert((k - 2) * c == (k - 1) * c - c) by (nonlinear_arith);
        lemma_chunks_concat_prefix(content, c, k - 1);
        assert((k - 1) * c == k * c - c) by (nonlinear_arith);
        let prev = if (k - 1) * c <= n {
            (k - 1) * c
        } else {
            n
        };
        let cur = if k * c <= n {
            k * c
        } else {
            n
        };
        assert(content.take(prev) + chunk_payload(content, c, k - 1) =~= content.take(cur));
    }
}

/// Build the `WriteFile` requests that carry `content` for the file `meta`.
///
/// There are exactly `ceil(content.len() / chunk_size)` requests; the chunk
/// at index `i` starts at offset `i * chunk_size` and holds the bytes from
/// there up to the next boundary or the end of the content.
pub fn plan_write_requests(meta: &FileMeta, content: &Vec<u8>, chunk_size: usize) -> (r: Vec<
    WsRequest,
>)
    requires
        chunk_size > 0,
    ensures
        r@.len() == chunk_count(content@.len(), chunk_size as nat),
        forall|i: int|
            0 <= i < r@.len() ==> is_chunk_request(
                #[trigger] r@[i]@,
                meta@,
                content@,
                chunk_size as nat,
                i,
            ),
{
    let n = content.len();
    let mut r: Vec<WsRequest> = Vec::new();
    let mut off: usize = 0;
    let mut i: usize = 0;
    while off < n
        invariant
            chunk_size > 0,
            n == content@.len(),
            off == i * chunk_size || (off == n && i * chunk_size >= n),
            off <= n,
            i <= off,
            i > 0 ==> (i - 1) * chunk_size < n,
            r@.len() == i,
            forall|q: int|
                0 <= q < i ==> is_chunk_request(
                    #[trigger] r@[q]@,
                    meta@,
                    content@,
                    chunk_size as nat,
                    q,
                ),
        decreases n - off,
    {
        let take: usize = if chunk_size <= n - off {
            chunk_size
        } else {
            n - off
        };
        let mut payload: Vec<u8> = Vec::new();
        let mut q: usize = 0;
        while q < take
            invariant
                off + take <= n,
                n == content@.len(),
                q <= take,
                payload@ == content@.subrange(off as int, off + q),
            decreases take - q,
        {
            payload.push(content[off + q]);
            q = q + 1;
            proof {
                assert(payload@ =~= content@.subrange(off as int, off + q));
            }
        }
        let chunk = FileChunk::new(off as u64, payload);
        let entry = FileEntry::new(meta.duplicate(), Some(chunk));
        let req = WsRequest::WriteFile(entry);
        let ghost off_g = off as int;
        let ghost i_g = i as int;
        r.push(req);
        proof {
            assert((i_g + 1) * chunk_size == i_g * chunk_size + chunk_size) by (nonlinear_arith);
            assert(off < n);
            assert(off == i * chunk_size);
            assert(i_g * (chunk_size as int) == off_g);
            assert((i_g + 1) * (chunk_size as int) == off_g + chunk_size);
            if chunk_size <= n - off {
                assert((i_g + 1) * (chunk_size as nat) <= content@.len());
            } else {
                assert((i_g + 1) * (chunk_size as nat) > content@.len());
            }
            assert(chunk_payload(content@, chunk_size as nat, i_g) =~= content@.subrange(
                off_g,
                off_g + take,
            ));
        }
        off = off + take;
        i = i + 1;
    }
    proof {
        let n_i = n as int;
        let ig = i as int;
        if n == 0 {
            assert(chunk_count(content@.len(), chunk_size as nat) == 0) by (nonlinear_arith)
                requires
                    chunk_size > 0,
                    content@.len() == 0,
            ;
        } else {
            assert(ig * chunk_size >= n_i);
            assert(ig > 0);
            assert((ig - 1) * chunk_size < n_i);
            assert(ig == (n_i + chunk_size - 1) / (chunk_size as int)) by (nonlinear_arith)
                requires
                    chunk_size > 0,
                    ig * chunk_size >= n_i,
                    (ig - 1) * chunk_size < n_i,
                    n_i > 0,
                    ig >= 0,
            ;
        }
    }
    r
}

} // verus!
