//! Wire encoding of protocol messages.
//!
//! A frame is the text of one message: a JSON object in compact form whose
//! single key names the variant, e.g. `{"CreateFile":{"rel_path":"a.txt",
//! "entry_type":"File","file_size":5}}`.  Strings escape `"`, `\` and
//! control characters (named escapes for backspace, tab, line feed, form
//! feed and carriage return, `\u00XX` with lowercase hex digits for the
//! rest); byte payloads are arrays of decimal numbers.  The spec functions
//! here define the encoding character by character; the executable encoder
//! is proved to produce exactly that sequence, and the decoder in `parse`
//! is proved to accept exactly these frames.

use vstd::prelude::*;

use crate::model::{
    EntryType, FileChunkView, FileEntryView, FileMeta, FileMetaView, WsRequest, WsRequestView,
    WsResponse, WsResponseView,
};
use crate::text::{chars_of, string_from_chars};

verus! {

/// The character of one decimal digit value.
pub open spec fn dec_digit(d: u64) -> char
    recommends
        d < 10,
{
    if d == 0 {
        '0'
    } else if d == 1 {
        '1'
    } else if d == 2 {
        '2'
    } else if d == 3 {
        '3'
    } else if d == 4 {
        '4'
    } else if d == 5 {
        '5'
    } else if d == 6 {
        '6'
    } else if d == 7 {
        '7'
    } else if d == 8 {
        '8'
    } else {
        '9'
    }
}

/// The decimal digits of `n`, most significant first, no leading zeros.
pub open spec fn enc_u64(n: u64) -> Seq<char>
    decreases n,
{
    if n < 10 {
        seq![dec_digit(n)]
    } else {
        enc_u64((n / 10) as u64) + seq![dec_digit(n % 10)]
    }
}

/// The lowercase hex character of one nibble value.
pub open spec fn hex_digit(d: u32) -> char
    recommends
        d < 16,
{
    if d == 0 {
        '0'
    } else if d == 1 {
        '1'
    } else if d == 2 {
        '2'
    } else if d == 3 {
        '3'
    } else if d == 4 {
        '4'
    } else if d == 5 {
        '5'
    } else if d == 6 {
        '6'
    } else if d == 7 {
        '7'
    } else if d == 8 {
        '8'
    } else if d == 9 {
        '9'
    } else if d == 10 {
        'a'
    } else if d == 11 {
        'b'
    } else if d == 12 {
        'c'
    } else if d == 13 {
        'd'
    } else if d == 14 {
        'e'
    } else {
        'f'
    }
}

/// The escape sequence of one character inside a JSON string.
pub open spec fn esc_char(c: char) -> Seq<char> {
    if c == '"' {
        seq!['\\', '"']
    } else if c == '\\' {
        seq!['\\', '\\']
    } else if c == '\u{8}' {
        seq!['\\', 'b']
    } else if c == '\t' {
        seq!['\\', 't']
    } else if c == '\n' {
        seq!['\\', 'n']
    } else if c == '\u{c}' {
        seq!['\\', 'f']
    } else if c == '\r' {
        seq!['\\', 'r']
    } else if (c as u32) < 32 {
        seq!['\\', 'u', '0', '0', hex_digit((c as u32) / 16), hex_digit((c as u32) % 16)]
    } else {
        seq![c]
    }
}

/// The escaped body of a JSON string.
pub open spec fn esc(s: Seq<char>) -> Seq<char>
    decreases s.len(),
{
    if s.len() == 0 {
        Seq::<char>::empty()
    } else {
        esc_char(s[0]) + esc(s.drop_first())
    }
}

/// A JSON string: quote, escaped body, quote.
pub open spec fn enc_string(s: Seq<char>) -> Seq<char> {
    seq!['"'] + esc(s) + seq!['"']
}

/// The elements of a byte array after the first: `,n` for each byte.
pub open spec fn enc_bytes_rest(p: Seq<u8>) -> Seq<char>
    decreases p.len(),
{
    if p.len() == 0 {
        Seq::<char>::empty()
    } else {
        seq![','] + enc_u64(p[0] as u64) + enc_bytes_rest(p.drop_first())
    }
}

/// A byte payload as a JSON array of decimal numbers.
pub open spec fn enc_bytes(p: Seq<u8>) -> Seq<char> {
    if p.len() == 0 {
        seq!['[', ']']
    } else {
        seq!['['] + enc_u64(p[0] as u64) + enc_bytes_rest(p.drop_first()) + seq![']']
    }
}

/// An entry type as a JSON string.
pub open spec fn enc_entry_type(t: EntryType) -> Seq<char> {
    match t {
        EntryType::File => "\"File\""@,
        EntryType::Dir => "\"Dir\""@,
        EntryType::SymLink => "\"SymLink\""@,
    }
}

/// A file meta as a JSON object.
pub open spec fn enc_meta(m: FileMetaView) -> Seq<char> {
    "{\"rel_path\":"@ + enc_string(m.rel_path) + ",\"entry_type\":"@ + enc_entry_type(m.entry_type)
        + ",\"file_size\":"@ + enc_u64(m.file_size) + "}"@
}

/// A file chunk as a JSON object.
pub open spec fn enc_chunk(c: FileChunkView) -> Seq<char> {
    "{\"offset\":"@ + enc_u64(c.offset) + ",\"payload\":"@ + enc_bytes(c.payload) + "}"@
}

/// A file entry as a JSON object; an absent chunk is `null`.
pub open spec fn enc_entry(e: FileEntryView) -> Seq<char> {
    "{\"file_meta\":"@ + enc_meta(e.file_meta) + ",\"file_chunk\":"@ + (match e.file_chunk {
        Option::None => "null"@,
        Option::Some(c) => enc_chunk(c),
    }) + "}"@
}

/// The elements of a meta list after the first: `,meta` for each meta.
pub open spec fn enc_metas_rest(v: Seq<FileMetaView>) -> Seq<char>
    decreases v.len(),
{
    if v.len() == 0 {
        Seq::<char>::empty()
    } else {
        seq![','] + enc_meta(v[0]) + enc_metas_rest(v.drop_first())
    }
}

/// A meta list as a JSON array.
pub open spec fn enc_metas(v: Seq<FileMetaView>) -> Seq<char> {
    if v.len() == 0 {
        seq!['[', ']']
    } else {
        seq!['['] + enc_meta(v[0]) + enc_metas_rest(v.drop_first()) + seq![']']
    }
}

/// A request frame.
pub open spec fn enc_request(r: WsRequestView) -> Seq<char> {
    match r {
        WsRequestView::CreateFile(m) => "{\"CreateFile\":"@ + enc_meta(m) + "}"@,
        WsRequestView::WriteFile(e) => "{\"WriteFile\":"@ + enc_entry(e) + "}"@,
        WsRequestView::ClearDir(v) => "{\"ClearDir\":"@ + enc_metas(v) + "}"@,
    }
}

/// A response frame.
pub open spec fn enc_response(r: WsResponseView) -> Seq<char> {
    match r {
        WsResponseView::CreateSuccess(m) => "{\"CreateSuccess\":"@ + enc_meta(m) + "}"@,
        WsResponseView::CreateFailed(m) => "{\"CreateFailed\":"@ + enc_meta(m) + "}"@,
        WsResponseView::WriteSuccess(m) => "{\"WriteSuccess\":"@ + enc_meta(m) + "}"@,
        WsResponseView::WriteFailed(m) => "{\"WriteFailed\":"@ + enc_meta(m) + "}"@,
        WsResponseView::ClearDirDone(v) => "{\"ClearDirDone\":"@ + enc_metas(v) + "}"@,
    }
}

/// Append the characters of a literal.
fn push_lit(out: &mut Vec<char>, lit: &str)
    ensures
        final(out)@ == old(out)@ + lit@,
{
    let cs = chars_of(lit);
    let mut i: usize = 0;
    while i < cs.len()
        invariant
            cs@ == lit@,
            i <= cs.len(),
            out@ == old(out)@ + lit@.subrange(0, i as int),
        decreases cs.len() - i,
    {
        out.push(cs[i]);
        i = i + 1;
        proof {
            assert(out@ =~= old(out)@ + lit@.subrange(0, i as int));
        }
    }
    proof {
        assert(out@ =~= old(out)@ + lit@);
    }
}

/// The character of one decimal digit value.
fn digit_char(d: u64) -> (c: char)
    requires
        d < 10,
    ensures
        c == dec_digit(d),
{
    if d == 0 {
        '0'
    } else if d == 1 {
        '1'
    } else if d == 2 {
        '2'
    } else if d == 3 {
        '3'
    } else if d == 4 {
        '4'
    } else if d == 5 {
        '5'
    } else if d == 6 {
        '6'
    } else if d == 7 {
        '7'
    } else if d == 8 {
        '8'
    } else {
        '9'
    }
}

/// Append the decimal digits of `n`.
fn push_u64(out: &mut Vec<char>, n: u64)
    ensures
        final(out)@ == old(out)@ + enc_u64(n),
{
    let mut rev: Vec<char> = Vec::new();
    let mut m: u64 = n;
    loop
        invariant_except_break
            m > 0 ==> enc_u64(n) == enc_u64(m) + rev@.reverse(),
            m == 0 ==> (rev@.len() == 0 && n == 0),
        ensures
            enc_u64(n) == rev@.reverse(),
        decreases m,
    {
        let ghost prev = rev@;
        let ghost mprev = m;
        rev.push(digit_char(m % 10));
        m = m / 10;
        proof {
            assert(rev@.reverse() =~= seq![dec_digit(mprev % 10)] + prev.reverse());
            if mprev == 0 {
                assert(enc_u64(n) =~= rev@.reverse());
            } else if mprev < 10 {
                assert(enc_u64(mprev) =~= seq![dec_digit(mprev)]);
                assert(enc_u64(n) =~= rev@.reverse());
            } else {
                assert(enc_u64(mprev) == enc_u64(mprev / 10) + seq![dec_digit(mprev % 10)]);
                assert(enc_u64(n) =~= enc_u64(m) + rev@.reverse());
            }
        }
        if m == 0 {
            break;
        }
    }
    let mut k: usize = rev.len();
    while k > 0
        invariant
            k <= rev.len(),
            enc_u64(n) == rev@.reverse(),
            out@ == old(out)@ + rev@.reverse().subrange(0, (rev@.len() - k) as int),
        decreases k,
    {
        k = k - 1;
        out.push(rev[k]);
        proof {
            assert(rev@.reverse()[rev@.len() - k - 1] == rev@[k as int]);
            assert(out@ =~= old(out)@ + rev@.reverse().subrange(0, (rev@.len() - k) as int));
        }
    }
    proof {
        assert(out@ =~= old(out)@ + enc_u64(n));
    }
}

/// The lowercase hex character of one nibble value.
fn hex_char(d: u32) -> (c: char)
    requires
        d < 16,
    ensures
        c == hex_digit(d),
{
    if d == 0 {
        '0'
    } else if d == 1 {
        '1'
    } else if d == 2 {
        '2'
    } else if d == 3 {
        '3'
    } else if d == 4 {
        '4'
    } else if d == 5 {
        '5'
    } else if d == 6 {
        '6'
    } else if d == 7 {
        '7'
    } else if d == 8 {
        '8'
    } else if d == 9 {
        '9'
    } else if d == 10 {
        'a'
    } else if d == 11 {
        'b'
    } else if d == 12 {
        'c'
    } else if d == 13 {
        'd'
    } else if d == 14 {
        'e'
    } else {
        'f'
    }
}

/// Append the escape sequence of one string character.
fn push_esc_char(out: &mut Vec<char>, c: char)
    ensures
        final(out)@ == old(out)@ + esc_char(c),
{
    if c == '"' {
        out.push('\\');
        out.push('"');
    } else if c == '\\' {
        out.push('\\');
        out.push('\\');
    } else if c == '\u{8}' {
        out.push('\\');
        out.push('b');
    } else if c == '\t' {
        out.push('\\');
        out.push('t');
    } else if c == '\n' {
        out.push('\\');
        out.push('n');
    } else if c == '\u{c}' {
        out.push('\\');
        out.push('f');
    } else if c == '\r' {
        out.push('\\');
        out.push('r');
    } else if (c as u32) < 32 {
        out.push('\\');
        out.push('u');
        out.push('0');
        out.push('0');
        out.push(hex_char((c as u32) / 16));
        out.push(hex_char((c as u32) % 16));
    } else {
        out.push(c);
    }
    proof {
        assert(out@ =~= old(out)@ + esc_char(c));
    }
}

/// Append a JSON string.
fn push_string(out: &mut Vec<char>, s: &str)
    ensures
        final(out)@ == old(out)@ + enc_string(s@),
{
    out.push('"');
    let cs = chars_of(s);
    let mut i: usize = 0;
    while i < cs.len()
        invariant
            cs@ == s@,
            i <= cs.len(),
            out@ == old(out)@ + seq!['"'] + esc(s@.subrange(0, i as int)),
        decreases cs.len() - i,
    {
        push_esc_char(out, cs[i]);
        i = i + 1;
        proof {
            lemma_esc_snoc(s@.subrange(0, i as int));
            assert(s@.subrange(0, i as int).drop_last() =~= s@.subrange(0, i - 1));
            assert(out@ =~= old(out)@ + seq!['"'] + esc(s@.subrange(0, i as int)));
        }
    }
    out.push('"');
    proof {
        assert(s@.subrange(0, s@.len() as int) =~= s@);
        assert(out@ =~= old(out)@ + enc_string(s@));
    }
}

/// Peeling the last element off a nonempty escaped body.
proof fn lemma_esc_snoc(s: Seq<char>)
    requires
        s.len() > 0,
    ensures
        esc(s) == esc(s.drop_last()) + esc_char(s.last()),
    decreases s.len(),
{
    if s.len() == 1 {
        assert(s.drop_first() =~= Seq::<char>::empty());
        assert(s.drop_last() =~= Seq::<char>::empty());
        assert(esc(s) =~= esc(s.drop_last()) + esc_char(s.last()));
    } else {
        lemma_esc_snoc(s.drop_first());
        assert(s.drop_first().drop_last() =~= s.drop_last().drop_first());
        assert(s.drop_last()[0] == s[0]);
        assert(s.drop_first().last() == s.last());
        assert(esc(s.drop_last()) == esc_char(s[0]) + esc(s.drop_last().drop_first()));
        assert(esc(s) =~= esc(s.drop_last()) + esc_char(s.last()));
    }
}

/// Append a byte payload.
fn push_bytes(out: &mut Vec<char>, p: &[u8])
    ensures
        final(out)@ == old(out)@ + enc_bytes(p@),
{
    out.push('[');
    if p.len() == 0 {
        out.push(']');
        proof {
            assert(out@ =~= old(out)@ + enc_bytes(p@));
        }
        return ;
    }
    push_u64(out, p[0] as u64);
    let mut i: usize = 1;
    while i < p.len()
        invariant
            1 <= i <= p.len(),
            out@ == old(out)@ + seq!['['] + enc_u64(p@[0] as u64) + enc_bytes_rest(
                p@.subrange(1, i as int),
            ),
        decreases p.len() - i,
    {
        out.push(',');
        push_u64(out, p[i] as u64);
        i = i + 1;
        proof {
            lemma_bytes_rest_snoc(p@.subrange(1, i as int));
            assert(p@.subrange(1, i as int).drop_last() =~= p@.subrange(1, i - 1));
            assert(out@ =~= old(out)@ + seq!['['] + enc_u64(p@[0] as u64) + enc_bytes_rest(
                p@.subrange(1, i as int),
            ));
        }
    }
    out.push(']');
    proof {
        assert(p@.subrange(1, p@.len() as int) =~= p@.drop_first());
        assert(out@ =~= old(out)@ + enc_bytes(p@));
    }
}

/// Peeling the last element off a nonempty byte-array tail.
proof fn lemma_bytes_rest_snoc(p: Seq<u8>)
    requires
        p.len() > 0,
    ensures
        enc_bytes_rest(p) == enc_bytes_rest(p.drop_last()) + seq![','] + enc_u64(p.last() as u64),
    decreases p.len(),
{
    if p.len() == 1 {
        assert(p.drop_first() =~= Seq::<u8>::empty());
        assert(p.drop_last() =~= Seq::<u8>::empty());
        assert(enc_bytes_rest(p) =~= enc_bytes_rest(p.drop_last()) + seq![','] + enc_u64(
            p.last() as u64,
        ));
    } else {
        lemma_bytes_rest_snoc(p.drop_first());
        assert(p.drop_first().drop_last() =~= p.drop_last().drop_first());
        assert(p.drop_last()[0] == p[0]);
        assert(p.drop_first().last() == p.last());
        assert(enc_bytes_rest(p.drop_last()) == seq![','] + enc_u64(p[0] as u64) + enc_bytes_rest(
            p.drop_last().drop_first(),
        ));
        assert(enc_bytes_rest(p) =~= enc_bytes_rest(p.drop_last()) + seq![','] + enc_u64(
            p.last() as u64,
        ));
    }
}

/// Append a file meta object.
fn push_meta(out: &mut Vec<char>, m: &FileMeta)
    ensures
        final(out)@ == old(out)@ + enc_meta(m@),
{
    push_lit(out, "{\"rel_path\":");
    push_string(out, m.rel_path());
    push_lit(out, ",\"entry_type\":");
    if m.is_file() {
        push_lit(out, "\"File\"");
    } else if m.is_dir() {
        push_lit(out, "\"Dir\"");
    } else {
        push_lit(out, "\"SymLink\"");
    }
    push_lit(out, ",\"file_size\":");
    push_u64(out, m.file_size());
    push_lit(out, "}");
    proof {
        assert(out@ =~= old(out)@ + enc_meta(m@));
    }
}

/// Append a meta list array.
fn push_metas(out: &mut Vec<char>, v: &Vec<FileMeta>)
    ensures
        final(out)@ == old(out)@ + enc_metas(crate::model::metas_view(v@)),
{
    let ghost mv = crate::model::metas_view(v@);
    out.push('[');
    if v.len() == 0 {
        out.push(']');
        proof {
            assert(out@ =~= old(out)@ + enc_metas(mv));
        }
        return ;
    }
    push_meta(out, &v[0]);
    let mut i: usize = 1;
    while i < v.len()
        invariant
            1 <= i <= v.len(),
            mv == crate::model::metas_view(v@),
            mv.len() == v.len(),
            out@ == old(out)@ + seq!['['] + enc_meta(mv[0]) + enc_metas_rest(
                mv.subrange(1, i as int),
            ),
        decreases v.len() - i,
    {
        out.push(',');
        push_meta(out, &v[i]);
        i = i + 1;
        proof {
            lemma_metas_rest_snoc(mv.subrange(1, i as int));
            assert(mv.subrange(1, i as int).drop_last() =~= mv.subrange(1, i - 1));
            assert(mv.subrange(1, i as int).last() == mv[i - 1]);
            assert(out@ =~= old(out)@ + seq!['['] + enc_meta(mv[0]) + enc_metas_rest(
                mv.subrange(1, i as int),
            ));
        }
    }
    out.push(']');
    proof {
        assert(mv.subrange(1, mv.len() as int) =~= mv.drop_first());
        assert(out@ =~= old(out)@ + enc_metas(mv));
    }
}

/// Peeling the last element off a nonempty meta-list tail.
proof fn lemma_metas_rest_snoc(v: Seq<FileMetaView>)
    requires
        v.len() > 0,
    ensures
        enc_metas_rest(v) == enc_metas_rest(v.drop_last()) + seq![','] + enc_meta(v.last()),
    decreases v.len(),
{
    if v.len() == 1 {
        assert(v.drop_first() =~= Seq::<FileMetaView>::empty());
        assert(v.drop_last() =~= Seq::<FileMetaView>::empty());
        assert(enc_metas_rest(v) =~= enc_metas_rest(v.drop_last()) + seq![','] + enc_meta(
            v.last(),
        ));
    } else {
        lemma_metas_rest_snoc(v.drop_first());
        assert(v.drop_first().drop_last() =~= v.drop_last().drop_first());
        assert(v.drop_last()[0] == v[0]);
        assert(v.drop_first().last() == v.last());
        assert(enc_metas_rest(v.drop_last()) == seq![','] + enc_meta(v[0]) + enc_metas_rest(
            v.drop_last().drop_first(),
        ));
        assert(enc_metas_rest(v) =~= enc_metas_rest(v.drop_last()) + seq![','] + enc_meta(
            v.last(),
        ));
    }
}

/// Encode one request as the characters of its frame.
pub fn encode_request(r: &WsRequest) -> (out: Vec<char>)
    ensures
        out@ == enc_request(r@),
{
    let mut out: Vec<char> = Vec::new();
    match r {
        WsRequest::CreateFile(m) => {
            push_lit(&mut out, "{\"CreateFile\":");
            push_meta(&mut out, m);
            push_lit(&mut out, "}");
        },
        WsRequest::WriteFile(e) => {
            push_lit(&mut out, "{\"WriteFile\":");
            push_lit(&mut out, "{\"file_meta\":");
            push_meta(&mut out, &e.file_meta());
            push_lit(&mut out, ",\"file_chunk\":");
            match e.file_content() {
                Option::None => {
                    push_lit(&mut out, "null");
                },
                Option::Some(_) => {
                    push_lit(&mut out, "{\"offset\":");
                    let off = match e.file_offset() {
                        Option::Some(o) => o,
                        Option::None => 0,
                    };
                    push_u64(&mut out, off);
                    push_lit(&mut out, ",\"payload\":");
                    let payload = match e.file_content() {
                        Option::Some(p) => p,
                        Option::None => &[],
                    };
                    push_bytes(&mut out, payload);
                    push_lit(&mut out, "}");
                },
            }
            push_lit(&mut out, "}");
            push_lit(&mut out, "}");
        },
        WsRequest::ClearDir(v) => {
            push_lit(&mut out, "{\"ClearDir\":");
            push_metas(&mut out, v);
            push_lit(&mut out, "}");
        },
    }
    proof {
        assert(out@ =~= enc_request(r@));
    }
    out
}

/// Encode one response as the characters of its frame.
pub fn encode_response(r: &WsResponse) -> (out: Vec<char>)
    ensures
        out@ == enc_response(r@),
{
    let mut out: Vec<char> = Vec::new();
    match r {
        WsResponse::CreateSuccess(m) => {
            push_lit(&mut out, "{\"CreateSuccess\":");
            push_meta(&mut out, m);
            push_lit(&mut out, "}");
        },
        WsResponse::CreateFailed(m) => {
            push_lit(&mut out, "{\"CreateFailed\":");
            push_meta(&mut out, m);
            push_lit(&mut out, "}");
        },
        WsResponse::WriteSuccess(m) => {
            push_lit(&mut out, "{\"WriteSuccess\":");
            push_meta(&mut out, m);
            push_lit(&mut out, "}");
        },
        WsResponse::WriteFailed(m) => {
            push_lit(&mut out, "{\"WriteFailed\":");
            push_meta(&mut out, m);
            push_lit(&mut out, "}");
        },
        WsResponse::ClearDirDone(v) => {
            push_lit(&mut out, "{\"ClearDirDone\":");
            push_metas(&mut out, v);
            push_lit(&mut out, "}");
        },
    }
    proof {
        assert(out@ =~= enc_response(r@));
    }
    out
}

impl WsRequest {
    /// The frame text of a `CreateFile` request.
    pub fn new_create_file_message(file_meta: FileMeta) -> (r: String)
        ensures
            r@ == enc_request(WsRequestView::CreateFile(file_meta@)),
    {
        let req = WsRequest::CreateFile(file_meta);
        let out = encode_request(&req);
        string_from_chars(&out)
    }

    /// The frame text of a `WriteFile` request.
    pub fn new_write_file_message(file_entry: crate::model::FileEntry) -> (r: String)
        ensures
            r@ == enc_request(WsRequestView::WriteFile(file_entry@)),
    {
        let req = WsRequest::WriteFile(file_entry);
        let out = encode_request(&req);
        string_from_chars(&out)
    }

    /// The frame text of a `ClearDir` request.
    pub fn new_clear_dir_message(file_metas: Vec<FileMeta>) -> (r: String)
        ensures
            r@ == enc_request(WsRequestView::ClearDir(crate::model::metas_view(file_metas@))),
    {
        let req = WsRequest::ClearDir(file_metas);
        let out = encode_request(&req);
        string_from_chars(&out)
    }
}

impl WsResponse {
    /// The frame text of a `CreateSuccess` response.
    pub fn new_create_success_message(file_meta: FileMeta) -> (r: String)
        ensures
            r@ == enc_response(WsResponseView::CreateSuccess(file_meta@)),
    {
        let resp = WsResponse::CreateSuccess(file_meta);
        let out = encode_response(&resp);
        string_from_chars(&out)
    }

    /// The frame text of a `CreateFailed` response.
    pub fn new_create_failed_message(file_meta: FileMeta) -> (r: String)
        ensures
            r@ == enc_response(WsResponseView::CreateFailed(file_meta@)),
    {
        let resp = WsResponse::CreateFailed(file_meta);
        let out = encode_response(&resp);
        string_from_chars(&out)
    }

    /// The frame text of a `WriteSuccess` response.
    pub fn new_write_success_message(file_meta: FileMeta) -> (r: String)
        ensures
            r@ == enc_response(WsResponseView::WriteSuccess(file_meta@)),
    {
        let resp = WsResponse::WriteSuccess(file_meta);
        let out = encode_response(&resp);
        string_from_chars(&out)
    }

    /// The frame text of a `WriteFailed` response.
    pub fn new_write_failed_message(file_meta: FileMeta) -> (r: String)
        ensures
            r@ == enc_response(WsResponseView::WriteFailed(file_meta@)),
    {
        let resp = WsResponse::WriteFailed(file_meta);
        let out = encode_response(&resp);
        string_from_chars(&out)
    }

    /// The frame text of a `ClearDirDone` response.
    pub fn new_clear_dir_done_message(file_metas: Vec<FileMeta>) -> (r: String)
        ensures
            r@ == enc_response(WsResponseView::ClearDirDone(crate::model::metas_view(file_metas@))),
    {
        let resp = WsResponse::ClearDirDone(file_metas);
        let out = encode_response(&resp);
        string_from_chars(&out)
    }
}

} // verus!
