//! Wire decoding of protocol messages.
//!
//! The spec functions here define a deterministic parser for the frame
//! grammar of `codec`; the executable decoders are proved to return exactly
//! what the spec parser returns.  Two laws tie the two sides together: a
//! frame produced by the encoder decodes to the value it was made from
//! (`lemma_request_round_trip`, `lemma_response_round_trip`), and any input
//! the decoder accepts is the encoding of the returned value
//! (`lemma_request_decode_sound`, `lemma_response_decode_sound`).  The
//! decoder therefore accepts exactly the canonical frames and nothing else.

use vstd::prelude::*;

use crate::codec::{
    dec_digit, enc_bytes, enc_bytes_rest, enc_chunk, enc_entry, enc_entry_type, enc_meta,
    enc_metas, enc_metas_rest, enc_request, enc_response, enc_string, enc_u64, esc, esc_char,
    hex_digit,
};
use crate::model::{
    metas_view, EntryType, FileChunk, FileChunkView, FileEntry, FileEntryView, FileMeta,
    FileMetaView, WsRequest, WsRequestView, WsResponse, WsResponseView,
};
use crate::text::{chars_of, string_from_chars};

verus! {

/// The value of a decimal digit character.
pub open spec fn dec_val(c: char) -> Option<u64> {
    if c == '0' {
        Some(0)
    } else if c == '1' {
        Some(1)
    } else if c == '2' {
        Some(2)
    } else if c == '3' {
        Some(3)
    } else if c == '4' {
        Some(4)
    } else if c == '5' {
        Some(5)
    } else if c == '6' {
        Some(6)
    } else if c == '7' {
        Some(7)
    } else if c == '8' {
        Some(8)
    } else if c == '9' {
        Some(9)
    } else {
        None
    }
}

/// The value of a lowercase hex digit character.
pub open spec fn hex_val(c: char) -> Option<u32> {
    if c == '0' {
        Some(0)
    } else if c == '1' {
        Some(1)
    } else if c == '2' {
        Some(2)
    } else if c == '3' {
        Some(3)
    } else if c == '4' {
        Some(4)
    } else if c == '5' {
        Some(5)
    } else if c == '6' {
        Some(6)
    } else if c == '7' {
        Some(7)
    } else if c == '8' {
        Some(8)
    } else if c == '9' {
        Some(9)
    } else if c == 'a' {
        Some(10)
    } else if c == 'b' {
        Some(11)
    } else if c == 'c' {
        Some(12)
    } else if c == 'd' {
        Some(13)
    } else if c == 'e' {
        Some(14)
    } else if c == 'f' {
        Some(15)
    } else {
        None
    }
}

/// The control character with the given code.
pub open spec fn ctrl_char(code: u32) -> char
    recommends
        code < 32,
{
    if code == 0 {
        '\u{0}'
    } else if code == 1 {
        '\u{1}'
    } else if code == 2 {
        '\u{2}'
    } else if code == 3 {
        '\u{3}'
    } else if code == 4 {
        '\u{4}'
    } else if code == 5 {
        '\u{5}'
    } else if code == 6 {
        '\u{6}'
    } else if code == 7 {
        '\u{7}'
    } else if code == 8 {
        '\u{8}'
    } else if code == 9 {
        '\u{9}'
    } else if code == 10 {
        '\u{a}'
    } else if code == 11 {
        '\u{b}'
    } else if code == 12 {
        '\u{c}'
    } else if code == 13 {
        '\u{d}'
    } else if code == 14 {
        '\u{e}'
    } else if code == 15 {
        '\u{f}'
    } else if code == 16 {
        '\u{10}'
    } else if code == 17 {
        '\u{11}'
    } else if code == 18 {
        '\u{12}'
    } else if code == 19 {
        '\u{13}'
    } else if code == 20 {
        '\u{14}'
    } else if code == 21 {
        '\u{15}'
    } else if code == 22 {
        '\u{16}'
    } else if code == 23 {
        '\u{17}'
    } else if code == 24 {
        '\u{18}'
    } else if code == 25 {
        '\u{19}'
    } else if code == 26 {
        '\u{1a}'
    } else if code == 27 {
        '\u{1b}'
    } else if code == 28 {
        '\u{1c}'
    } else if code == 29 {
        '\u{1d}'
    } else if code == 30 {
        '\u{1e}'
    } else {
        '\u{1f}'
    }
}

/// Powers of ten.
pub open spec fn pow10(k: nat) -> int
    decreases k,
{
    if k == 0 {
        1
    } else {
        10 * pow10((k - 1) as nat)
    }
}

/// Expect the literal `tok` at position `i`; the position after it on a match.
pub open spec fn sp_lit(input: Seq<char>, i: int, tok: Seq<char>) -> Option<int> {
    if i + tok.len() <= input.len() && input.subrange(i, i + tok.len()) == tok {
        Some(i + tok.len())
    } else {
        None
    }
}

/// Greedily consume decimal digits, folding them onto `acc`; fails on overflow.
pub open spec fn sp_u64_rest(input: Seq<char>, j: int, acc: u64) -> Option<(u64, int)>
    decreases input.len() - j,
{
    if j < input.len() && j >= 0 && dec_val(input[j]) is Some {
        let d = dec_val(input[j])->0;
        if acc <= (u64::MAX - d) / 10 {
            sp_u64_rest(input, j + 1, (acc * 10 + d) as u64)
        } else {
            None
        }
    } else {
        Some((acc, j))
    }
}

/// A canonical decimal number: one `0`, or digits with no leading zero.
pub open spec fn sp_u64(input: Seq<char>, i: int) -> Option<(u64, int)> {
    if 0 <= i < input.len() && input[i] == '0' {
        Some((0, i + 1))
    } else if 0 <= i < input.len() && dec_val(input[i]) is Some {
        sp_u64_rest(input, i, 0)
    } else {
        None
    }
}

/// The body of a string after the opening quote, accumulating onto `acc`.
pub open spec fn sp_str_body(input: Seq<char>, j: int, acc: Seq<char>) -> Option<(Seq<char>, int)>
    decreases input.len() - j,
{
    if j < 0 || j >= input.len() {
        None
    } else if input[j] == '"' {
        Some((acc, j + 1))
    } else if input[j] == '\\' {
        if j + 1 >= input.len() {
            None
        } else {
            let e = input[j + 1];
            if e == '"' {
                sp_str_body(input, j + 2, acc.push('"'))
            } else if e == '\\' {
                sp_str_body(input, j + 2, acc.push('\\'))
            } else if e == 'b' {
                sp_str_body(input, j + 2, acc.push('\u{8}'))
            } else if e == 't' {
                sp_str_body(input, j + 2, acc.push('\t'))
            } else if e == 'n' {
                sp_str_body(input, j + 2, acc.push('\n'))
            } else if e == 'f' {
                sp_str_body(input, j + 2, acc.push('\u{c}'))
            } else if e == 'r' {
                sp_str_body(input, j + 2, acc.push('\r'))
            } else if e == 'u' {
                if j + 5 >= input.len() {
                    None
                } else if input[j + 2] == '0' && input[j + 3] == '0' && hex_val(input[j + 4])
                    is Some && hex_val(input[j + 5]) is Some {
                    let code = hex_val(input[j + 4])->0 * 16 + hex_val(input[j + 5])->0;
                    if code < 32 && code != 8 && code != 9 && code != 10 && code != 12 && code
                        != 13 {
                        sp_str_body(input, j + 6, acc.push(ctrl_char(code as u32)))
                    } else {
                        None
                    }
                } else {
                    None
                }
            } else {
                None
            }
        }
    } else if (input[j] as u32) < 32 {
        None
    } else {
        sp_str_body(input, j + 1, acc.push(input[j]))
    }
}

/// A JSON string starting at `i`.
pub open spec fn sp_string(input: Seq<char>, i: int) -> Option<(Seq<char>, int)> {
    if 0 <= i < input.len() && input[i] == '"' {
        sp_str_body(input, i + 1, Seq::<char>::empty())
    } else {
        None
    }
}

/// An entry type name.
pub open spec fn sp_entry_type(input: Seq<char>, i: int) -> Option<(EntryType, int)> {
    if sp_lit(input, i, "\"File\""@) is Some {
        Some((EntryType::File, sp_lit(input, i, "\"File\""@)->0))
    } else if sp_lit(input, i, "\"Dir\""@) is Some {
        Some((EntryType::Dir, sp_lit(input, i, "\"Dir\""@)->0))
    } else if sp_lit(input, i, "\"SymLink\""@) is Some {
        Some((EntryType::SymLink, sp_lit(input, i, "\"SymLink\""@)->0))
    } else {
        None
    }
}

/// A file meta object.
pub open spec fn sp_meta(input: Seq<char>, i: int) -> Option<(FileMetaView, int)> {
    match sp_lit(input, i, "{\"rel_path\":"@) {
        None => None,
        Some(j1) => match sp_string(input, j1) {
            None => None,
            Some((rel_path, j2)) => match sp_lit(input, j2, ",\"entry_type\":"@) {
                None => None,
                Some(j3) => match sp_entry_type(input, j3) {
                    None => None,
                    Some((entry_type, j4)) => match sp_lit(input, j4, ",\"file_size\":"@) {
                        None => None,
                        Some(j5) => match sp_u64(input, j5) {
                            None => None,
                            Some((file_size, j6)) => match sp_lit(input, j6, "}"@) {
                                None => None,
                                Some(j7) => Some(
                                    (FileMetaView { rel_path, entry_type, file_size }, j7),
                                ),
                            },
                        },
                    },
                },
            },
        },
    }
}

/// The elements of a byte array after the first, accumulating onto `acc`.
pub open spec fn sp_bytes_rest(input: Seq<char>, j: int, acc: Seq<u8>) -> Option<(Seq<u8>, int)>
    decreases input.len() - j,
{
    if sp_lit(input, j, "]"@) is Some {
        Some((acc, sp_lit(input, j, "]"@)->0))
    } else {
        match sp_lit(input, j, ","@) {
            None => None,
            Some(k) => match sp_u64(input, k) {
                None => None,
                Some((n, j2)) => if n <= 255 && j2 > j && j2 <= input.len() {
                    sp_bytes_rest(input, j2, acc.push(n as u8))
                } else {
                    None
                },
            },
        }
    }
}

/// A byte payload array.
pub open spec fn sp_bytes(input: Seq<char>, i: int) -> Option<(Seq<u8>, int)> {
    if sp_lit(input, i, "[]"@) is Some {
        Some((Seq::<u8>::empty(), sp_lit(input, i, "[]"@)->0))
    } else {
        match sp_lit(input, i, "["@) {
            None => None,
            Some(j1) => match sp_u64(input, j1) {
                None => None,
                Some((n, j2)) => if n <= 255 {
                    sp_bytes_rest(input, j2, seq![n as u8])
                } else {
                    None
                },
            },
        }
    }
}

/// A file chunk object.
pub open spec fn sp_chunk(input: Seq<char>, i: int) -> Option<(FileChunkView, int)> {
    match sp_lit(input, i, "{\"offset\":"@) {
        None => None,
        Some(j1) => match sp_u64(input, j1) {
            None => None,
            Some((offset, j2)) => match sp_lit(input, j2, ",\"payload\":"@) {
                None => None,
                Some(j3) => match sp_bytes(input, j3) {
                    None => None,
                    Some((payload, j4)) => match sp_lit(input, j4, "}"@) {
                        None => None,
                        Some(j5) => Some((FileChunkView { offset, payload }, j5)),
                    },
                },
            },
        },
    }
}

/// A file entry object; `null` stands for an absent chunk.
pub open spec fn sp_entry(input: Seq<char>, i: int) -> Option<(FileEntryView, int)> {
    match sp_lit(input, i, "{\"file_meta\":"@) {
        None => None,
        Some(j1) => match sp_meta(input, j1) {
            None => None,
            Some((file_meta, j2)) => match sp_lit(input, j2, ",\"file_chunk\":"@) {
                None => None,
                Some(j3) => {
                    let chunk_res = if sp_lit(input, j3, "null"@) is Some {
                        Some((Option::<FileChunkView>::None, sp_lit(input, j3, "null"@)->0))
                    } else {
                        match sp_chunk(input, j3) {
                            None => None,
                            Some((c, j4)) => Some((Option::Some(c), j4)),
                        }
                    };
                    match chunk_res {
                        None => None,
                        Some((file_chunk, j4)) => match sp_lit(input, j4, "}"@) {
                            None => None,
                            Some(j5) => Some((FileEntryView { file_meta, file_chunk }, j5)),
                        },
                    }
                },
            },
        },
    }
}

/// The elements of a meta list after the first, accumulating onto `acc`.
pub open spec fn sp_metas_rest(input: Seq<char>, j: int, acc: Seq<FileMetaView>) -> Option<
    (Seq<FileMetaView>, int),
>
    decreases input.len() - j,
{
    if sp_lit(input, j, "]"@) is Some {
        Some((acc, sp_lit(input, j, "]"@)->0))
    } else {
        match sp_lit(input, j, ","@) {
            None => None,
            Some(k) => match sp_meta(input, k) {
                None => None,
                Some((m, j2)) => if j2 > j && j2 <= input.len() {
                    sp_metas_rest(input, j2, acc.push(m))
                } else {
                    None
                },
            },
        }
    }
}

/// A meta list array.
pub open spec fn sp_metas(input: Seq<char>, i: int) -> Option<(Seq<FileMetaView>, int)> {
    if sp_lit(input, i, "[]"@) is Some {
        Some((Seq::<FileMetaView>::empty(), sp_lit(input, i, "[]"@)->0))
    } else {
        match sp_lit(input, i, "["@) {
            None => None,
            Some(j1) => match sp_meta(input, j1) {
                None => None,
                Some((m, j2)) => sp_metas_rest(input, j2, seq![m]),
            },
        }
    }
}

/// A whole request frame; the input must be consumed exactly.
pub open spec fn sp_request(input: Seq<char>) -> Option<WsRequestView> {
    if sp_lit(input, 0, "{\"CreateFile\":"@) is Some {
        match sp_meta(input, sp_lit(input, 0, "{\"CreateFile\":"@)->0) {
            None => None,
            Some((m, j)) => if sp_lit(input, j, "}"@) == Some(input.len() as int) {
                Some(WsRequestView::CreateFile(m))
            } else {
                None
            },
        }
    } else if sp_lit(input, 0, "{\"WriteFile\":"@) is Some {
        match sp_entry(input, sp_lit(input, 0, "{\"WriteFile\":"@)->0) {
            None => None,
            Some((e, j)) => if sp_lit(input, j, "}"@) == Some(input.len() as int) {
                Some(WsRequestView::WriteFile(e))
            } else {
                None
            },
        }
    } else if sp_lit(input, 0, "{\"ClearDir\":"@) is Some {
        match sp_metas(input, sp_lit(input, 0, "{\"ClearDir\":"@)->0) {
            None => None,
            Some((v, j)) => if sp_lit(input, j, "}"@) == Some(input.len() as int) {
                Some(WsRequestView::ClearDir(v))
            } else {
                None
            },
        }
    } else {
        None
    }
}

/// A whole response frame; the input must be consumed exactly.
pub open spec fn sp_response(input: Seq<char>) -> Option<WsResponseView> {
    if sp_lit(input, 0, "{\"CreateSuccess\":"@) is Some {
        match sp_meta(input, sp_lit(input, 0, "{\"CreateSuccess\":"@)->0) {
            None => None,
            Some((m, j)) => if sp_lit(input, j, "}"@) == Some(input.len() as int) {
                Some(WsResponseView::CreateSuccess(m))
            } else {
                None
            },
        }
    } else if sp_lit(input, 0, "{\"CreateFailed\":"@) is Some {
        match sp_meta(input, sp_lit(input, 0, "{\"CreateFailed\":"@)->0) {
            None => None,
            Some((m, j)) => if sp_lit(input, j, "}"@) == Some(input.len() as int) {
                Some(WsResponseView::CreateFailed(m))
            } else {
                None
            },
        }
    } else if sp_lit(input, 0, "{\"WriteSuccess\":"@) is Some {
        match sp_meta(input, sp_lit(input, 0, "{\"WriteSuccess\":"@)->0) {
            None => None,
            Some((m, j)) => if sp_lit(input, j, "}"@) == Some(input.len() as int) {
                Some(WsResponseView::WriteSuccess(m))
            } else {
                None
            },
        }
    } else if sp_lit(input, 0, "{\"WriteFailed\":"@) is Some {
        match sp_meta(input, sp_lit(input, 0, "{\"WriteFailed\":"@)->0) {
            None => None,
            Some((m, j)) => if sp_lit(input, j, "}"@) == Some(input.len() as int) {
                Some(WsResponseView::WriteFailed(m))
            } else {
                None
            },
        }
    } else if sp_lit(input, 0, "{\"ClearDirDone\":"@) is Some {
        match sp_metas(input, sp_lit(input, 0, "{\"ClearDirDone\":"@)->0) {
            None => None,
            Some((v, j)) => if sp_lit(input, j, "}"@) == Some(input.len() as int) {
                Some(WsResponseView::ClearDirDone(v))
            } else {
                None
            },
        }
    } else {
        None
    }
}


/// A digit character decodes to its value.
proof fn lemma_dec_digit_val(d: u64)
    requires
        d < 10,
    ensures
        dec_val(dec_digit(d)) == Some(d),
{
}

/// A character with a decimal value is that value's digit.
proof fn lemma_dec_val_digit(c: char)
    requires
        dec_val(c) is Some,
    ensures
        dec_val(c)->0 < 10,
        dec_digit(dec_val(c)->0) == c,
{
}

/// A hex digit character decodes to its value.
proof fn lemma_hex_digit_val(d: u32)
    requires
        d < 16,
    ensures
        hex_val(hex_digit(d)) == Some(d),
{
}

/// The control character of a code carries that code.
proof fn lemma_ctrl_char_val(code: u32)
    requires
        code < 32,
    ensures
        ctrl_char(code) as u32 == code,
{
}

/// Two characters with one scalar value are one character.
proof fn lemma_char_eq_u32(c1: char, c2: char)
    requires
        c1 as u32 == c2 as u32,
    ensures
        c1 == c2,
{
    vstd::utf8::char_u32_cast(c1, c1 as u32);
    vstd::utf8::char_u32_cast(c2, c2 as u32);
}

/// Every character of a number's digits is a digit, and the first is `0`
/// exactly for the number zero.
proof fn lemma_enc_u64_digits(n: u64)
    ensures
        enc_u64(n).len() >= 1,
        forall|k: int| 0 <= k < enc_u64(n).len() ==> dec_val(#[trigger] enc_u64(n)[k]) is Some,
        dec_val(enc_u64(n)[0])->0 == 0 <==> n == 0,
    decreases n,
{
    if n < 10 {
        lemma_dec_digit_val(n);
    } else {
        lemma_enc_u64_digits(n / 10);
        lemma_dec_digit_val(n % 10);
        assert(forall|k: int|
            0 <= k < enc_u64(n).len() ==> dec_val(#[trigger] enc_u64(n)[k]) is Some) by {
            assert forall|k: int| 0 <= k < enc_u64(n).len() implies dec_val(
                #[trigger] enc_u64(n)[k],
            ) is Some by {
                if k < enc_u64((n / 10) as u64).len() {
                    assert(enc_u64(n)[k] == enc_u64((n / 10) as u64)[k]);
                } else {
                    assert(enc_u64(n)[k] == dec_digit(n % 10));
                }
            }
        }
        assert(enc_u64(n)[0] == enc_u64((n / 10) as u64)[0]);
    }
}

/// Consuming the digits of `m` folds it onto the accumulator.
proof fn lemma_sp_u64_rest_skip(input: Seq<char>, j: int, acc: u64, m: u64)
    requires
        0 <= j,
        j + enc_u64(m).len() <= input.len(),
        input.subrange(j, j + enc_u64(m).len()) == enc_u64(m),
        acc * pow10(enc_u64(m).len() as nat) + m <= u64::MAX,
    ensures
        sp_u64_rest(input, j, acc) == sp_u64_rest(
            input,
            j + enc_u64(m).len(),
            (acc * pow10(enc_u64(m).len() as nat) + m) as u64,
        ),
    decreases m,
{
    if m < 10 {
        assert(enc_u64(m) =~= seq![dec_digit(m)]);
        assert(input[j] == input.subrange(j, j + enc_u64(m).len())[0]);
        assert(input[j] == dec_digit(m));
        lemma_dec_digit_val(m);
        assert(dec_val(input[j]) == Some(m));
        assert(pow10(0) == 1);
        assert(pow10(1) == 10);
        assert(acc * 10 + m <= u64::MAX);
        assert(acc <= (u64::MAX - m) / 10) by (nonlinear_arith)
            requires
                acc * 10 + m <= u64::MAX,
                m < 10,
        ;
        assert(sp_u64_rest(input, j, acc) == sp_u64_rest(input, j + 1, (acc * 10 + m) as u64));
    } else {
        let q = (m / 10) as u64;
        let r = (m % 10) as u64;
        let lq = enc_u64(q).len();
        assert(enc_u64(m) == enc_u64(q) + seq![dec_digit(r)]);
        assert(pow10((lq + 1) as nat) == 10 * pow10(lq as nat));
        assert(input.subrange(j, j + lq) =~= enc_u64(q)) by {
            assert forall|k: int| 0 <= k < lq implies input.subrange(j, j + lq)[k] == enc_u64(q)[k] by {
                assert(input.subrange(j, j + lq)[k] == input[j + k]);
                assert(input[j + k] == input.subrange(j, j + enc_u64(m).len())[k]);
                assert(enc_u64(m)[k] == enc_u64(q)[k]);
            }
        }
        lemma_pow10_pos(lq as nat);
        assert(acc * pow10(lq as nat) + q <= u64::MAX) by (nonlinear_arith)
            requires
                acc * (10 * pow10(lq as nat)) + (10 * q + r) <= u64::MAX,
                m == 10 * q + r,
                r >= 0,
                q >= 0,
                acc >= 0,
                pow10(lq as nat) >= 0,
        ;
        lemma_sp_u64_rest_skip(input, j, acc, q);
        let a1 = (acc * pow10(lq as nat) + q) as u64;
        assert(input[j + lq] == input.subrange(j, j + enc_u64(m).len())[lq as int]);
        assert(enc_u64(m)[lq as int] == dec_digit(r));
        assert(input[j + lq] == dec_digit(r));
        lemma_dec_digit_val(r);
        assert(a1 * 10 + r <= u64::MAX) by (nonlinear_arith)
            requires
                a1 == acc * pow10(lq as nat) + q,
                acc * (10 * pow10(lq as nat)) + (10 * q + r) <= u64::MAX,
                m == 10 * q + r,
        ;
        assert(a1 <= (u64::MAX - r) / 10) by (nonlinear_arith)
            requires
                a1 * 10 + r <= u64::MAX,
                r < 10,
                a1 >= 0,
        ;
        assert(sp_u64_rest(input, j + lq, a1) == sp_u64_rest(input, j + lq + 1, (a1 * 10
            + r) as u64));
        assert((a1 * 10 + r) as u64 == (acc * pow10((lq + 1) as nat) + m) as u64)
            by (nonlinear_arith)
            requires
                a1 == acc * pow10(lq as nat) + q,
                m == 10 * q + r,
                pow10((lq + 1) as nat) == 10 * pow10(lq as nat),
                a1 * 10 + r <= u64::MAX,
        ;
    }
}

/// `pow10` is at least one.
proof fn lemma_pow10_pos(k: nat)
    ensures
        pow10(k) >= 1,
    decreases k,
{
    if k > 0 {
        lemma_pow10_pos((k - 1) as nat);
    }
}

/// The number parser accepts a canonical number followed by a non-digit.
proof fn lemma_sp_u64_of_enc(input: Seq<char>, i: int, n: u64)
    requires
        0 <= i,
        i + enc_u64(n).len() <= input.len(),
        input.subrange(i, i + enc_u64(n).len()) == enc_u64(n),
        i + enc_u64(n).len() == input.len() || dec_val(input[i + enc_u64(n).len()]) is None,
    ensures
        sp_u64(input, i) == Some((n, i + enc_u64(n).len())),
{
    let l = enc_u64(n).len();
    lemma_enc_u64_digits(n);
    assert(input[i] == enc_u64(n)[0]);
    if n == 0 {
        assert(enc_u64(0) =~= seq!['0']);
        assert(input[i] == '0');
    } else {
        lemma_dec_val_digit(enc_u64(n)[0]);
        assert(input[i] != '0');
        lemma_pow10_pos(l as nat);
        assert(0 * pow10(l as nat) + n <= u64::MAX);
        lemma_sp_u64_rest_skip(input, i, 0, n);
        assert(0 * pow10(l as nat) + n == n);
        assert(sp_u64_rest(input, i, 0) == sp_u64_rest(input, i + l, n));
        assert(sp_u64_rest(input, i + l, n) == Some((n, i + l)));
    }
}

/// Whatever the digit scan returns grows the accumulator's digits.
proof fn lemma_sp_u64_rest_sound(input: Seq<char>, j: int, acc: u64)
    requires
        0 <= j <= input.len(),
        acc > 0,
        sp_u64_rest(input, j, acc) is Some,
    ensures
        ({
            let (n, k) = sp_u64_rest(input, j, acc)->0;
            &&& j <= k <= input.len()
            &&& enc_u64(n) == enc_u64(acc) + input.subrange(j, k)
            &&& (k == input.len() || dec_val(input[k]) is None)
        }),
    decreases input.len() - j,
{
    if j < input.len() && dec_val(input[j]) is Some {
        let d = dec_val(input[j])->0;
        lemma_dec_val_digit(input[j]);
        if acc <= (u64::MAX - d) / 10 {
            let a1 = (acc * 10 + d) as u64;
            assert(acc * 10 + d <= u64::MAX) by (nonlinear_arith)
                requires
                    acc <= (u64::MAX - d) / 10,
                    0 <= d < 10,
                    acc >= 0,
            ;
            lemma_sp_u64_rest_sound(input, j + 1, a1);
            let (n, k) = sp_u64_rest(input, j + 1, a1)->0;
            assert(a1 >= 10);
            assert(a1 / 10 == acc && a1 % 10 == d) by (nonlinear_arith)
                requires
                    a1 == acc * 10 + d,
                    0 <= d < 10,
                    acc > 0,
            ;
            assert(enc_u64(a1) == enc_u64(acc) + seq![dec_digit(d)]);
            assert(enc_u64(n) =~= enc_u64(acc) + input.subrange(j, k)) by {
                assert(enc_u64(n) == enc_u64(a1) + input.subrange(j + 1, k));
                assert(input.subrange(j, k) =~= seq![input[j]] + input.subrange(j + 1, k));
                assert(dec_digit(d) == input[j]);
            }
        }
    } else {
        assert(input.subrange(j, j) =~= Seq::<char>::empty());
        assert(enc_u64(acc) =~= enc_u64(acc) + input.subrange(j, j));
    }
}

/// Whatever the number parser returns is a canonical number.
proof fn lemma_sp_u64_sound(input: Seq<char>, i: int)
    requires
        sp_u64(input, i) is Some,
    ensures
        ({
            let (n, k) = sp_u64(input, i)->0;
            &&& i < k <= input.len()
            &&& input.subrange(i, k) == enc_u64(n)
            &&& (k == input.len() || dec_val(input[k]) is None || input[i] == '0')
        }),
{
    if 0 <= i < input.len() && input[i] == '0' {
        assert(enc_u64(0) =~= seq!['0']);
        assert(input.subrange(i, i + 1) =~= seq![input[i]]);
    } else {
        let d0 = dec_val(input[i])->0;
        lemma_dec_val_digit(input[i]);
        assert(d0 > 0) by {
            if d0 == 0 {
                assert(dec_digit(0) == '0');
            }
        }
        assert(0 <= (u64::MAX - d0) / 10);
        assert(sp_u64_rest(input, i, 0) == sp_u64_rest(input, i + 1, d0));
        lemma_sp_u64_rest_sound(input, i + 1, d0);
        let (n, k) = sp_u64_rest(input, i + 1, d0)->0;
        assert(enc_u64(n) == enc_u64(d0) + input.subrange(i + 1, k));
        assert(enc_u64(d0) =~= seq![dec_digit(d0)]);
        assert(input.subrange(i, k) =~= seq![input[i]] + input.subrange(i + 1, k));
        assert(input.subrange(i, k) =~= enc_u64(n));
    }
}


/// A character with a hex value is that value's hex digit.
proof fn lemma_hex_val_digit(c: char)
    requires
        hex_val(c) is Some,
    ensures
        hex_val(c)->0 < 16,
        hex_digit(hex_val(c)->0) == c,
{
}

/// Reading one escape sequence appends its character to the accumulator.
proof fn lemma_sp_str_step(input: Seq<char>, j: int, acc: Seq<char>, c: char)
    requires
        0 <= j,
        j + esc_char(c).len() <= input.len(),
        input.subrange(j, j + esc_char(c).len()) == esc_char(c),
    ensures
        sp_str_body(input, j, acc) == sp_str_body(input, j + esc_char(c).len(), acc.push(c)),
{
    let e0 = esc_char(c);
    assert(forall|k: int| 0 <= k < e0.len() ==> input[j + k] == #[trigger] e0[k]) by {
        assert forall|k: int| 0 <= k < e0.len() implies input[j + k] == #[trigger] e0[k] by {
            assert(input.subrange(j, j + e0.len())[k] == input[j + k]);
        }
    }
    if c == '"' {
        assert(input[j] == '\\' && input[j + 1] == '"');
    } else if c == '\\' {
        assert(input[j] == '\\' && input[j + 1] == '\\');
    } else if c == '\u{8}' {
        assert(input[j] == '\\' && input[j + 1] == 'b');
    } else if c == '\t' {
        assert(input[j] == '\\' && input[j + 1] == 't');
    } else if c == '\n' {
        assert(input[j] == '\\' && input[j + 1] == 'n');
    } else if c == '\u{c}' {
        assert(input[j] == '\\' && input[j + 1] == 'f');
    } else if c == '\r' {
        assert(input[j] == '\\' && input[j + 1] == 'r');
    } else if (c as u32) < 32 {
        let cc = c as u32;
        assert(input[j] == '\\' && input[j + 1] == 'u');
        assert(input[j + 2] == '0' && input[j + 3] == '0');
        assert(input[j + 4] == hex_digit(cc / 16) && input[j + 5] == hex_digit(cc % 16));
        lemma_hex_digit_val(cc / 16);
        lemma_hex_digit_val(cc % 16);
        let code = hex_val(input[j + 4])->0 * 16 + hex_val(input[j + 5])->0;
        assert(code == cc);
        assert(code != 8 && code != 9 && code != 10 && code != 12 && code != 13) by {
            if cc == 8 {
                lemma_char_eq_u32(c, '\u{8}');
            }
            if cc == 9 {
                lemma_char_eq_u32(c, '\t');
            }
            if cc == 10 {
                lemma_char_eq_u32(c, '\n');
            }
            if cc == 12 {
                lemma_char_eq_u32(c, '\u{c}');
            }
            if cc == 13 {
                lemma_char_eq_u32(c, '\r');
            }
        }
        lemma_ctrl_char_val(code as u32);
        lemma_char_eq_u32(ctrl_char(code as u32), c);
    } else {
        assert(e0[0] == c);
        assert(input[j + 0] == e0[0]);
        assert(input[j] == c);
    }
}

/// The string body parser accepts an escaped body up to its closing quote.
proof fn lemma_sp_str_body_of_esc(input: Seq<char>, j: int, acc: Seq<char>, v: Seq<char>)
    requires
        0 <= j,
        j + esc(v).len() + 1 <= input.len(),
        input.subrange(j, j + esc(v).len()) == esc(v),
        input[j + esc(v).len()] == '"',
    ensures
        sp_str_body(input, j, acc) == Some((acc + v, j + esc(v).len() + 1)),
    decreases v.len(),
{
    if v.len() == 0 {
        assert(esc(v).len() == 0);
        assert(acc + v =~= acc);
    } else {
        let c = v[0];
        let v1 = v.drop_first();
        let e0 = esc_char(c);
        assert(esc(v) == e0 + esc(v1));
        assert(input.subrange(j, j + e0.len()) =~= e0) by {
            assert forall|k: int| 0 <= k < e0.len() implies input.subrange(j, j + e0.len())[k]
                == e0[k] by {
                assert(input.subrange(j, j + e0.len())[k] == input[j + k]);
                assert(input[j + k] == input.subrange(j, j + esc(v).len())[k]);
            }
        }
        lemma_sp_str_step(input, j, acc, c);
        let j1 = j + e0.len();
        assert(input.subrange(j1, j1 + esc(v1).len()) =~= esc(v1)) by {
            assert forall|k: int| 0 <= k < esc(v1).len() implies input.subrange(
                j1,
                j1 + esc(v1).len(),
            )[k] == esc(v1)[k] by {
                assert(input.subrange(j1, j1 + esc(v1).len())[k] == input[j1 + k]);
                assert(input[j1 + k] == input.subrange(j, j + esc(v).len())[e0.len() + k]);
                assert(esc(v)[e0.len() + k] == esc(v1)[k]);
            }
        }
        lemma_sp_str_body_of_esc(input, j1, acc.push(c), v1);
        assert(acc.push(c) + v1 =~= acc + v);
    }
}

/// Whatever the string body parser returns extends the accumulator, and the
/// consumed region is the escaped extension plus the closing quote.
proof fn lemma_sp_str_body_sound(input: Seq<char>, j: int, acc: Seq<char>)
    requires
        0 <= j <= input.len(),
        sp_str_body(input, j, acc) is Some,
    ensures
        ({
            let (sv, k) = sp_str_body(input, j, acc)->0;
            &&& j < k <= input.len()
            &&& acc.len() <= sv.len()
            &&& sv.take(acc.len() as int) == acc
            &&& input.subrange(j, k) == esc(sv.skip(acc.len() as int)) + seq!['"']
        }),
    decreases input.len() - j,
{
    let (sv, k) = sp_str_body(input, j, acc)->0;
    if input[j] == '"' {
        assert(sv.take(acc.len() as int) =~= acc);
        assert(sv.skip(acc.len() as int) =~= Seq::<char>::empty());
        assert(input.subrange(j, k) =~= esc(sv.skip(acc.len() as int)) + seq!['"']);
    } else {
        let (x, step): (char, int) = if input[j] == '\\' {
            let e = input[j + 1];
            if e == '"' {
                ('"', 2)
            } else if e == '\\' {
                ('\\', 2)
            } else if e == 'b' {
                ('\u{8}', 2)
            } else if e == 't' {
                ('\t', 2)
            } else if e == 'n' {
                ('\n', 2)
            } else if e == 'f' {
                ('\u{c}', 2)
            } else {
                if e == 'r' {
                    ('\r', 2)
                } else {
                    let code = hex_val(input[j + 4])->0 * 16 + hex_val(input[j + 5])->0;
                    (ctrl_char(code as u32), 6)
                }
            }
        } else {
            (input[j], 1)
        };
        assert(sp_str_body(input, j, acc) == sp_str_body(input, j + step, acc.push(x)));
        assert(input.subrange(j, j + step) =~= esc_char(x)) by {
            if input[j] == '\\' {
                let e = input[j + 1];
                if e == 'u' {
                    let h1 = hex_val(input[j + 4])->0;
                    let h2 = hex_val(input[j + 5])->0;
                    let code = h1 * 16 + h2;
                    lemma_ctrl_char_val(code as u32);
                    lemma_hex_val_digit(input[j + 4]);
                    lemma_hex_val_digit(input[j + 5]);
                    assert((x as u32) == code);
                    assert(x != '"' && x != '\\' && x != '\u{8}' && x != '\t' && x != '\n' && x
                        != '\u{c}' && x != '\r');
                    assert(esc_char(x) =~= seq![
                        '\\',
                        'u',
                        '0',
                        '0',
                        hex_digit(code as u32 / 16),
                        hex_digit(code as u32 % 16),
                    ]);
                    assert(code as u32 / 16 == h1 && code as u32 % 16 == h2);
                }
            } else {
                assert(x as u32 >= 32);
                assert(esc_char(x) =~= seq![x]);
            }
        }
        lemma_sp_str_body_sound(input, j + step, acc.push(x));
        assert(sv.take(acc.len() as int) =~= acc) by {
            assert(sv.take((acc.len() + 1) as int) == acc.push(x));
            assert(forall|idx: int|
                0 <= idx < acc.len() ==> #[trigger] sv.take((acc.len() + 1) as int)[idx]
                    == sv[idx]);
        }
        assert(sv[acc.len() as int] == x) by {
            assert(sv.take((acc.len() + 1) as int)[acc.len() as int] == sv[acc.len() as int]);
        }
        assert(sv.skip(acc.len() as int) =~= seq![x] + sv.skip((acc.len() + 1) as int));
        assert(esc(sv.skip(acc.len() as int)) == esc_char(x) + esc(
            sv.skip((acc.len() + 1) as int),
        )) by {
            let w = sv.skip(acc.len() as int);
            assert(w[0] == x);
            assert(w.drop_first() =~= sv.skip((acc.len() + 1) as int));
        }
        assert(input.subrange(j, k) =~= input.subrange(j, j + step) + input.subrange(
            j + step,
            k,
        )) by {
            assert forall|idx: int| 0 <= idx < k - j implies input.subrange(j, k)[idx]
                == (input.subrange(j, j + step) + input.subrange(j + step, k))[idx] by {
                if idx < step {
                    assert(input.subrange(j, j + step)[idx] == input[j + idx]);
                } else {
                    assert(input.subrange(j + step, k)[idx - step] == input[j + idx]);
                }
                assert(input.subrange(j, k)[idx] == input[j + idx]);
            }
        }
        assert(input.subrange(j + step, k) == esc(sv.skip((acc.len() + 1) as int)) + seq!['"']);
        assert(input.subrange(j, k) =~= esc(sv.skip(acc.len() as int)) + seq!['"']);
    }
}

/// The string parser accepts an encoded string.
proof fn lemma_sp_string_of_enc(input: Seq<char>, i: int, v: Seq<char>)
    requires
        0 <= i,
        i + enc_string(v).len() <= input.len(),
        input.subrange(i, i + enc_string(v).len()) == enc_string(v),
    ensures
        sp_string(input, i) == Some((v, i + enc_string(v).len())),
{
    let l = enc_string(v).len();
    assert(forall|k: int| 0 <= k < l ==> input[i + k] == #[trigger] enc_string(v)[k]) by {
        assert forall|k: int| 0 <= k < l implies input[i + k] == #[trigger] enc_string(v)[k] by {
            assert(input.subrange(i, i + l)[k] == input[i + k]);
        }
    }
    assert(enc_string(v)[0] == '"');
    assert(input[i + 0] == enc_string(v)[0]);
    assert(input[i] == '"');
    assert(input.subrange(i + 1, i + 1 + esc(v).len()) =~= esc(v)) by {
        assert forall|k: int| 0 <= k < esc(v).len() implies input.subrange(
            i + 1,
            i + 1 + esc(v).len(),
        )[k] == esc(v)[k] by {
            assert(input.subrange(i + 1, i + 1 + esc(v).len())[k] == input[i + 1 + k]);
            assert(enc_string(v)[1 + k] == esc(v)[k]);
        }
    }
    assert(input[i + 1 + esc(v).len()] == '"') by {
        assert(enc_string(v)[1 + esc(v).len() as int] == '"');
    }
    lemma_sp_str_body_of_esc(input, i + 1, Seq::<char>::empty(), v);
    assert(Seq::<char>::empty() + v =~= v);
}

/// Whatever the string parser returns is an encoded string.
proof fn lemma_sp_string_sound(input: Seq<char>, i: int)
    requires
        sp_string(input, i) is Some,
    ensures
        ({
            let (sv, k) = sp_string(input, i)->0;
            &&& i < k <= input.len()
            &&& input.subrange(i, k) == enc_string(sv)
        }),
{
    let (sv, k) = sp_string(input, i)->0;
    lemma_sp_str_body_sound(input, i + 1, Seq::<char>::empty());
    assert(sv.skip(0) =~= sv);
    assert(input.subrange(i + 1, k) == esc(sv) + seq!['"']);
    assert(input.subrange(i, k) =~= seq![input[i]] + input.subrange(i + 1, k)) by {
        assert forall|idx: int| 0 <= idx < k - i implies input.subrange(i, k)[idx] == (seq![
            input[i],
        ] + input.subrange(i + 1, k))[idx] by {
            if idx > 0 {
                assert(input.subrange(i + 1, k)[idx - 1] == input[i + idx]);
            }
            assert(input.subrange(i, k)[idx] == input[i + idx]);
        }
    }
    assert(input.subrange(i, k) =~= enc_string(sv));
}


/// One index of a region equality.
proof fn lemma_region_index(input: Seq<char>, i: int, r: Seq<char>, k: int)
    requires
        0 <= i,
        i + r.len() <= input.len(),
        input.subrange(i, i + r.len()) == r,
        0 <= k < r.len(),
    ensures
        input[i + k] == r[k],
{
    assert(input.subrange(i, i + r.len())[k] == input[i + k]);
}

/// A region holding a concatenation splits at the seam.
proof fn lemma_region_split(input: Seq<char>, i: int, x: Seq<char>, y: Seq<char>)
    requires
        0 <= i,
        i + x.len() + y.len() <= input.len(),
        input.subrange(i, i + x.len() + y.len()) == x + y,
    ensures
        input.subrange(i, i + x.len()) == x,
        input.subrange(i + x.len(), i + x.len() + y.len()) == y,
{
    let l = x.len() + y.len();
    assert(input.subrange(i, i + x.len()) =~= x) by {
        assert forall|k: int| 0 <= k < x.len() implies input.subrange(i, i + x.len())[k]
            == x[k] by {
            assert(input.subrange(i, i + x.len())[k] == input[i + k]);
            assert(input.subrange(i, i + l)[k] == input[i + k]);
            assert((x + y)[k] == x[k]);
        }
    }
    assert(input.subrange(i + x.len(), i + l) =~= y) by {
        assert forall|k: int| 0 <= k < y.len() implies input.subrange(i + x.len(), i + l)[k]
            == y[k] by {
            assert(input.subrange(i + x.len(), i + l)[k] == input[i + x.len() + k]);
            assert(input.subrange(i, i + l)[x.len() + k] == input[i + x.len() + k]);
            assert((x + y)[x.len() + k] == y[k]);
        }
    }
}

/// Adjacent regions join to the region of the concatenation.
proof fn lemma_region_join(input: Seq<char>, i: int, m: int, k: int)
    requires
        0 <= i <= m <= k <= input.len(),
    ensures
        input.subrange(i, k) == input.subrange(i, m) + input.subrange(m, k),
{
    assert(input.subrange(i, k) =~= input.subrange(i, m) + input.subrange(m, k)) by {
        assert forall|idx: int| 0 <= idx < k - i implies input.subrange(i, k)[idx]
            == (input.subrange(i, m) + input.subrange(m, k))[idx] by {
            if idx < m - i {
                assert(input.subrange(i, m)[idx] == input[i + idx]);
            } else {
                assert(input.subrange(m, k)[idx - (m - i)] == input[i + idx]);
            }
            assert(input.subrange(i, k)[idx] == input[i + idx]);
        }
    }
}

/// The entry type parser accepts an encoded entry type.
proof fn lemma_sp_entry_type_of_enc(input: Seq<char>, i: int, t: EntryType)
    requires
        0 <= i,
        i + enc_entry_type(t).len() <= input.len(),
        input.subrange(i, i + enc_entry_type(t).len()) == enc_entry_type(t),
    ensures
        sp_entry_type(input, i) == Some((t, i + enc_entry_type(t).len())),
{
    reveal_strlit("\"File\"");
    reveal_strlit("\"Dir\"");
    reveal_strlit("\"SymLink\"");
    match t {
        EntryType::File => {
        },
        EntryType::Dir => {
            lemma_region_index(input, i, enc_entry_type(t), 1);
            if sp_lit(input, i, "\"File\""@) is Some {
                lemma_region_index(input, i, "\"File\""@, 1);
            }
        },
        EntryType::SymLink => {
            lemma_region_index(input, i, enc_entry_type(t), 1);
            if sp_lit(input, i, "\"File\""@) is Some {
                lemma_region_index(input, i, "\"File\""@, 1);
            }
            if sp_lit(input, i, "\"Dir\""@) is Some {
                lemma_region_index(input, i, "\"Dir\""@, 1);
            }
        },
    }
}

/// Whatever the entry type parser returns is an encoded entry type.
proof fn lemma_sp_entry_type_sound(input: Seq<char>, i: int)
    requires
        0 <= i,
        sp_entry_type(input, i) is Some,
    ensures
        ({
            let (t, k) = sp_entry_type(input, i)->0;
            &&& 0 <= i < k <= input.len()
            &&& input.subrange(i, k) == enc_entry_type(t)
        }),
{
    reveal_strlit("\"File\"");
    reveal_strlit("\"Dir\"");
    reveal_strlit("\"SymLink\"");
}

/// The meta parser accepts an encoded meta.
proof fn lemma_sp_meta_of_enc(input: Seq<char>, i: int, m: FileMetaView)
    requires
        0 <= i,
        i + enc_meta(m).len() <= input.len(),
        input.subrange(i, i + enc_meta(m).len()) == enc_meta(m),
    ensures
        sp_meta(input, i) == Some((m, i + enc_meta(m).len())),
{
    let a = "{\"rel_path\":"@;
    let b = enc_string(m.rel_path);
    let c = ",\"entry_type\":"@;
    let d = enc_entry_type(m.entry_type);
    let e = ",\"file_size\":"@;
    let f = enc_u64(m.file_size);
    let g = "}"@;
    let p1 = a + b + c + d + e + f;
    let p2 = a + b + c + d + e;
    let p3 = a + b + c + d;
    let p4 = a + b + c;
    let p5 = a + b;
    lemma_region_split(input, i, p1, g);
    lemma_region_split(input, i, p2, f);
    lemma_region_split(input, i, p3, e);
    lemma_region_split(input, i, p4, d);
    lemma_region_split(input, i, p5, c);
    lemma_region_split(input, i, a, b);
    let j1 = i + a.len();
    let j2 = j1 + b.len();
    let j3 = j2 + c.len();
    let j4 = j3 + d.len();
    let j5 = j4 + e.len();
    let j6 = j5 + f.len();
    let j7 = j6 + g.len();
    assert(sp_lit(input, i, a) == Some(j1));
    lemma_sp_string_of_enc(input, j1, m.rel_path);
    assert(sp_string(input, j1) == Some((m.rel_path, j2)));
    assert(sp_lit(input, j2, c) == Some(j3));
    lemma_sp_entry_type_of_enc(input, j3, m.entry_type);
    assert(sp_entry_type(input, j3) == Some((m.entry_type, j4)));
    assert(sp_lit(input, j4, e) == Some(j5));
    reveal_strlit("}");
    lemma_region_index(input, j6, g, 0);
    assert(input[j6] == '}');
    assert(dec_val('}') is None);
    lemma_sp_u64_of_enc(input, j5, m.file_size);
    assert(sp_u64(input, j5) == Some((m.file_size, j6)));
    assert(sp_lit(input, j6, g) == Some(j7));
}

/// Whatever the meta parser returns is an encoded meta.
proof fn lemma_sp_meta_sound(input: Seq<char>, i: int)
    requires
        0 <= i,
        sp_meta(input, i) is Some,
    ensures
        ({
            let (m, k) = sp_meta(input, i)->0;
            &&& i < k <= input.len()
            &&& input.subrange(i, k) == enc_meta(m)
        }),
{
    let a = "{\"rel_path\":"@;
    let c = ",\"entry_type\":"@;
    let e = ",\"file_size\":"@;
    let g = "}"@;
    let j1 = sp_lit(input, i, a)->0;
    let (rel_path, j2) = sp_string(input, j1)->0;
    let j3 = sp_lit(input, j2, c)->0;
    let (entry_type, j4) = sp_entry_type(input, j3)->0;
    let j5 = sp_lit(input, j4, e)->0;
    let (file_size, j6) = sp_u64(input, j5)->0;
    let j7 = sp_lit(input, j6, g)->0;
    lemma_sp_string_sound(input, j1);
    lemma_sp_entry_type_sound(input, j3);
    lemma_sp_u64_sound(input, j5);
    lemma_region_join(input, i, j1, j2);
    lemma_region_join(input, i, j2, j3);
    lemma_region_join(input, i, j3, j4);
    lemma_region_join(input, i, j4, j5);
    lemma_region_join(input, i, j5, j6);
    lemma_region_join(input, i, j6, j7);
    let m = FileMetaView { rel_path, entry_type, file_size };
    assert(input.subrange(i, j7) == input.subrange(i, j6) + input.subrange(j6, j7));
    assert(input.subrange(i, j7) =~= enc_meta(m));
}


/// The byte-array tail parser accepts encoded elements up to the bracket.
proof fn lemma_sp_bytes_rest_of_enc(input: Seq<char>, j: int, acc: Seq<u8>, p: Seq<u8>)
    requires
        0 <= j,
        j + enc_bytes_rest(p).len() + 1 <= input.len(),
        input.subrange(j, j + enc_bytes_rest(p).len()) == enc_bytes_rest(p),
        input[j + enc_bytes_rest(p).len()] == ']',
    ensures
        sp_bytes_rest(input, j, acc) == Some((acc + p, j + enc_bytes_rest(p).len() + 1)),
    decreases p.len(),
{
    reveal_strlit("]");
    reveal_strlit(",");
    if p.len() == 0 {
        assert(input.subrange(j, j + 1) =~= "]"@);
        assert(sp_lit(input, j, "]"@) == Some(j + 1));
        assert(acc + p =~= acc);
    } else {
        let r = enc_bytes_rest(p);
        let n0 = p[0] as u64;
        let p1 = p.drop_first();
        assert(r == seq![','] + enc_u64(n0) + enc_bytes_rest(p1));
        lemma_region_split(input, j, seq![','] + enc_u64(n0), enc_bytes_rest(p1));
        lemma_region_split(input, j, seq![','], enc_u64(n0));
        lemma_region_index(input, j, seq![','], 0);
        if sp_lit(input, j, "]"@) is Some {
            lemma_region_index(input, j, "]"@, 0);
        }
        assert(sp_lit(input, j, "]"@) is None);
        assert(input.subrange(j, j + 1) =~= ","@);
        assert(sp_lit(input, j, ","@) == Some(j + 1));
        let k = j + 1;
        let j2 = k + enc_u64(n0).len();
        assert(input[j2] == ',' || input[j2] == ']') by {
            if p1.len() == 0 {
                assert(enc_bytes_rest(p1).len() == 0);
            } else {
                assert(enc_bytes_rest(p1)[0] == ',');
                lemma_region_index(input, j2, enc_bytes_rest(p1), 0);
            }
        }
        assert(dec_val(input[j2]) is None);
        lemma_sp_u64_of_enc(input, k, n0);
        assert(sp_u64(input, k) == Some((n0, j2)));
        lemma_sp_bytes_rest_of_enc(input, j2, acc.push(p[0]), p1);
        assert(acc.push(p[0]) + p1 =~= acc + p);
    }
}

/// The byte-array parser accepts an encoded payload.
proof fn lemma_sp_bytes_of_enc(input: Seq<char>, i: int, p: Seq<u8>)
    requires
        0 <= i,
        i + enc_bytes(p).len() <= input.len(),
        input.subrange(i, i + enc_bytes(p).len()) == enc_bytes(p),
    ensures
        sp_bytes(input, i) == Some((p, i + enc_bytes(p).len())),
{
    reveal_strlit("[]");
    reveal_strlit("[");
    if p.len() == 0 {
        assert(enc_bytes(p) =~= "[]"@);
        assert(sp_lit(input, i, "[]"@) == Some(i + 2));
        assert(Seq::<u8>::empty() =~= p);
    } else {
        let n0 = p[0] as u64;
        let p1 = p.drop_first();
        assert(enc_bytes(p) == seq!['['] + enc_u64(n0) + enc_bytes_rest(p1) + seq![']']);
        lemma_region_split(input, i, seq!['['] + enc_u64(n0) + enc_bytes_rest(p1), seq![']']);
        lemma_region_split(input, i, seq!['['] + enc_u64(n0), enc_bytes_rest(p1));
        lemma_region_split(input, i, seq!['['], enc_u64(n0));
        lemma_region_index(input, i, seq!['['], 0);
        lemma_enc_u64_digits(n0);
        if sp_lit(input, i, "[]"@) is Some {
            lemma_region_index(input, i, "[]"@, 1);
            lemma_region_index(input, i + 1, enc_u64(n0), 0);
            assert(dec_val(']') is None);
        }
        assert(sp_lit(input, i, "[]"@) is None);
        assert(input.subrange(i, i + 1) =~= "["@);
        assert(sp_lit(input, i, "["@) == Some(i + 1));
        let j1 = i + 1;
        let j2 = j1 + enc_u64(n0).len();
        assert(input[j2] == ',' || input[j2] == ']') by {
            reveal_strlit(",");
            reveal_strlit("]");
            if p1.len() == 0 {
                assert(enc_bytes_rest(p1).len() == 0);
                lemma_region_index(input, j2, seq![']'], 0);
            } else {
                assert(enc_bytes_rest(p1)[0] == ',');
                lemma_region_index(input, j2, enc_bytes_rest(p1), 0);
            }
        }
        assert(dec_val(input[j2]) is None);
        lemma_sp_u64_of_enc(input, j1, n0);
        assert(sp_u64(input, j1) == Some((n0, j2)));
        assert(n0 <= 255);
        let tail_end = j2 + enc_bytes_rest(p1).len();
        assert(input[tail_end] == ']') by {
            lemma_region_index(input, tail_end, seq![']'], 0);
        }
        lemma_sp_bytes_rest_of_enc(input, j2, seq![p[0]], p1);
        assert(seq![p[0]] + p1 =~= p);
    }
}

/// Whatever the byte-array tail parser returns extends the accumulator with
/// encoded elements.
proof fn lemma_sp_bytes_rest_sound(input: Seq<char>, j: int, acc: Seq<u8>)
    requires
        0 <= j <= input.len(),
        sp_bytes_rest(input, j, acc) is Some,
    ensures
        ({
            let (pv, k) = sp_bytes_rest(input, j, acc)->0;
            &&& j < k <= input.len()
            &&& acc.len() <= pv.len()
            &&& pv.take(acc.len() as int) == acc
            &&& input.subrange(j, k) == enc_bytes_rest(pv.skip(acc.len() as int)) + seq![']']
        }),
    decreases input.len() - j,
{
    reveal_strlit("]");
    reveal_strlit(",");
    let (pv, k) = sp_bytes_rest(input, j, acc)->0;
    if sp_lit(input, j, "]"@) is Some {
        assert(pv == acc && k == j + 1);
        assert(pv.take(acc.len() as int) =~= acc);
        assert(pv.skip(acc.len() as int) =~= Seq::<u8>::empty());
        lemma_region_index(input, j, "]"@, 0);
        assert(input.subrange(j, k) =~= enc_bytes_rest(pv.skip(acc.len() as int)) + seq![']']);
    } else {
        let k1 = sp_lit(input, j, ","@)->0;
        let (n, j2) = sp_u64(input, k1)->0;
        lemma_sp_u64_sound(input, k1);
        lemma_sp_bytes_rest_sound(input, j2, acc.push(n as u8));
        let x = n as u8;
        assert(pv.take(acc.len() as int) =~= acc) by {
            assert(pv.take((acc.len() + 1) as int) == acc.push(x));
            assert(forall|idx: int|
                0 <= idx < acc.len() ==> #[trigger] pv.take((acc.len() + 1) as int)[idx]
                    == pv[idx]);
        }
        assert(pv[acc.len() as int] == x) by {
            assert(pv.take((acc.len() + 1) as int)[acc.len() as int] == pv[acc.len() as int]);
        }
        let w = pv.skip(acc.len() as int);
        assert(w =~= seq![x] + pv.skip((acc.len() + 1) as int));
        assert(enc_bytes_rest(w) == seq![','] + enc_u64(x as u64) + enc_bytes_rest(
            pv.skip((acc.len() + 1) as int),
        )) by {
            assert(w[0] == x);
            assert(w.drop_first() =~= pv.skip((acc.len() + 1) as int));
        }
        lemma_region_join(input, j, k1, j2);
        lemma_region_join(input, j, j2, k);
        assert(input.subrange(j, k1) =~= ","@);
        assert(","@ =~= seq![',']);
        assert(x as u64 == n);
        assert(input.subrange(j, k) =~= enc_bytes_rest(w) + seq![']']);
    }
}

/// Whatever the byte-array parser returns is an encoded payload.
proof fn lemma_sp_bytes_sound(input: Seq<char>, i: int)
    requires
        0 <= i,
        sp_bytes(input, i) is Some,
    ensures
        ({
            let (pv, k) = sp_bytes(input, i)->0;
            &&& i < k <= input.len()
            &&& input.subrange(i, k) == enc_bytes(pv)
        }),
{
    reveal_strlit("[]");
    reveal_strlit("[");
    let (pv, k) = sp_bytes(input, i)->0;
    if sp_lit(input, i, "[]"@) is Some {
        assert(input.subrange(i, k) =~= enc_bytes(pv));
    } else {
        let j1 = sp_lit(input, i, "["@)->0;
        let (n, j2) = sp_u64(input, j1)->0;
        lemma_sp_u64_sound(input, j1);
        lemma_sp_bytes_rest_sound(input, j2, seq![n as u8]);
        let (pv2, k2) = sp_bytes_rest(input, j2, seq![n as u8])->0;
        assert(pv2 == pv && k2 == k);
        assert(pv[0] == n as u8) by {
            assert(pv.take(1)[0] == pv[0]);
        }
        assert(pv.len() >= 1);
        let w = pv.skip(1);
        assert(w =~= pv.drop_first());
        lemma_region_join(input, i, j1, j2);
        lemma_region_join(input, i, j2, k);
        assert(input.subrange(i, j1) =~= seq!['[']);
        assert(enc_bytes(pv) == seq!['['] + enc_u64(pv[0] as u64) + enc_bytes_rest(
            pv.drop_first(),
        ) + seq![']']);
        assert(pv[0] as u64 == n);
        assert(input.subrange(i, k) =~= enc_bytes(pv));
    }
}


/// The chunk parser accepts an encoded chunk.
proof fn lemma_sp_chunk_of_enc(input: Seq<char>, i: int, c: FileChunkView)
    requires
        0 <= i,
        i + enc_chunk(c).len() <= input.len(),
        input.subrange(i, i + enc_chunk(c).len()) == enc_chunk(c),
    ensures
        sp_chunk(input, i) == Some((c, i + enc_chunk(c).len())),
{
    let a = "{\"offset\":"@;
    let b = enc_u64(c.offset);
    let d = ",\"payload\":"@;
    let e = enc_bytes(c.payload);
    let g = "}"@;
    lemma_region_split(input, i, a + b + d + e, g);
    lemma_region_split(input, i, a + b + d, e);
    lemma_region_split(input, i, a + b, d);
    lemma_region_split(input, i, a, b);
    let j1 = i + a.len();
    let j2 = j1 + b.len();
    let j3 = j2 + d.len();
    let j4 = j3 + e.len();
    let j5 = j4 + g.len();
    assert(sp_lit(input, i, a) == Some(j1));
    reveal_strlit(",\"payload\":");
    lemma_region_index(input, j2, d, 0);
    assert(input[j2] == ',');
    assert(dec_val(',') is None);
    lemma_sp_u64_of_enc(input, j1, c.offset);
    assert(sp_u64(input, j1) == Some((c.offset, j2)));
    assert(sp_lit(input, j2, d) == Some(j3));
    lemma_sp_bytes_of_enc(input, j3, c.payload);
    assert(sp_bytes(input, j3) == Some((c.payload, j4)));
    assert(sp_lit(input, j4, g) == Some(j5));
}

/// Whatever the chunk parser returns is an encoded chunk.
proof fn lemma_sp_chunk_sound(input: Seq<char>, i: int)
    requires
        0 <= i,
        sp_chunk(input, i) is Some,
    ensures
        ({
            let (c, k) = sp_chunk(input, i)->0;
            &&& i < k <= input.len()
            &&& input.subrange(i, k) == enc_chunk(c)
        }),
{
    let a = "{\"offset\":"@;
    let d = ",\"payload\":"@;
    let g = "}"@;
    let j1 = sp_lit(input, i, a)->0;
    let (offset, j2) = sp_u64(input, j1)->0;
    let j3 = sp_lit(input, j2, d)->0;
    let (payload, j4) = sp_bytes(input, j3)->0;
    let j5 = sp_lit(input, j4, g)->0;
    lemma_sp_u64_sound(input, j1);
    lemma_sp_bytes_sound(input, j3);
    lemma_region_join(input, i, j1, j2);
    lemma_region_join(input, i, j2, j3);
    lemma_region_join(input, i, j3, j4);
    lemma_region_join(input, i, j4, j5);
    let c = FileChunkView { offset, payload };
    assert(input.subrange(i, j5) =~= enc_chunk(c));
}

/// The entry parser accepts an encoded entry.
proof fn lemma_sp_entry_of_enc(input: Seq<char>, i: int, e: FileEntryView)
    requires
        0 <= i,
        i + enc_entry(e).len() <= input.len(),
        input.subrange(i, i + enc_entry(e).len()) == enc_entry(e),
    ensures
        sp_entry(input, i) == Some((e, i + enc_entry(e).len())),
{
    let a = "{\"file_meta\":"@;
    let b = enc_meta(e.file_meta);
    let d = ",\"file_chunk\":"@;
    let x: Seq<char> = match e.file_chunk {
        Option::None => "null"@,
        Option::Some(c) => enc_chunk(c),
    };
    let g = "}"@;
    lemma_region_split(input, i, a + b + d + x, g);
    lemma_region_split(input, i, a + b + d, x);
    lemma_region_split(input, i, a + b, d);
    lemma_region_split(input, i, a, b);
    let j1 = i + a.len();
    let j2 = j1 + b.len();
    let j3 = j2 + d.len();
    let j4 = j3 + x.len();
    let j5 = j4 + g.len();
    assert(sp_lit(input, i, a) == Some(j1));
    lemma_sp_meta_of_enc(input, j1, e.file_meta);
    assert(sp_meta(input, j1) == Some((e.file_meta, j2)));
    assert(sp_lit(input, j2, d) == Some(j3));
    match e.file_chunk {
        Option::None => {
            assert(sp_lit(input, j3, "null"@) == Some(j4));
        },
        Option::Some(c) => {
            reveal_strlit("null");
            reveal_strlit("{\"offset\":");
            if sp_lit(input, j3, "null"@) is Some {
                lemma_region_index(input, j3, "null"@, 0);
                lemma_region_index(input, j3, enc_chunk(c), 0);
                assert(enc_chunk(c)[0] == '{');
            }
            assert(sp_lit(input, j3, "null"@) is None);
            lemma_sp_chunk_of_enc(input, j3, c);
            assert(sp_chunk(input, j3) == Some((c, j4)));
        },
    }
    assert(sp_lit(input, j4, g) == Some(j5));
}

/// Whatever the entry parser returns is an encoded entry.
proof fn lemma_sp_entry_sound(input: Seq<char>, i: int)
    requires
        0 <= i,
        sp_entry(input, i) is Some,
    ensures
        ({
            let (e, k) = sp_entry(input, i)->0;
            &&& i < k <= input.len()
            &&& input.subrange(i, k) == enc_entry(e)
        }),
{
    let a = "{\"file_meta\":"@;
    let d = ",\"file_chunk\":"@;
    let g = "}"@;
    let j1 = sp_lit(input, i, a)->0;
    let (file_meta, j2) = sp_meta(input, j1)->0;
    let j3 = sp_lit(input, j2, d)->0;
    lemma_sp_meta_sound(input, j1);
    let (e, k) = sp_entry(input, i)->0;
    let j4: int = if sp_lit(input, j3, "null"@) is Some {
        sp_lit(input, j3, "null"@)->0
    } else {
        (sp_chunk(input, j3)->0).1
    };
    if sp_lit(input, j3, "null"@) is Some {
        assert(input.subrange(j3, j4) == "null"@);
    } else {
        lemma_sp_chunk_sound(input, j3);
    }
    let j5 = sp_lit(input, j4, g)->0;
    lemma_region_join(input, i, j1, j2);
    lemma_region_join(input, i, j2, j3);
    lemma_region_join(input, i, j3, j4);
    lemma_region_join(input, i, j4, j5);
    assert(input.subrange(i, j5) =~= enc_entry(e));
}

/// The meta-list tail parser accepts encoded elements up to the bracket.
proof fn lemma_sp_metas_rest_of_enc(input: Seq<char>, j: int, acc: Seq<FileMetaView>, v: Seq<FileMetaView>)
    requires
        0 <= j,
        j + enc_metas_rest(v).len() + 1 <= input.len(),
        input.subrange(j, j + enc_metas_rest(v).len()) == enc_metas_rest(v),
        input[j + enc_metas_rest(v).len()] == ']',
    ensures
        sp_metas_rest(input, j, acc) == Some((acc + v, j + enc_metas_rest(v).len() + 1)),
    decreases v.len(),
{
    reveal_strlit("]");
    reveal_strlit(",");
    if v.len() == 0 {
        assert(input.subrange(j, j + 1) =~= "]"@);
        assert(sp_lit(input, j, "]"@) == Some(j + 1));
        assert(acc + v =~= acc);
    } else {
        let m0 = v[0];
        let v1 = v.drop_first();
        assert(enc_metas_rest(v) == seq![','] + enc_meta(m0) + enc_metas_rest(v1));
        lemma_region_split(input, j, seq![','] + enc_meta(m0), enc_metas_rest(v1));
        lemma_region_split(input, j, seq![','], enc_meta(m0));
        lemma_region_index(input, j, seq![','], 0);
        if sp_lit(input, j, "]"@) is Some {
            lemma_region_index(input, j, "]"@, 0);
        }
        assert(sp_lit(input, j, "]"@) is None);
        assert(input.subrange(j, j + 1) =~= ","@);
        assert(sp_lit(input, j, ","@) == Some(j + 1));
        let k = j + 1;
        let j2 = k + enc_meta(m0).len();
        lemma_sp_meta_of_enc(input, k, m0);
        assert(sp_meta(input, k) == Some((m0, j2)));
        assert(j2 > j) by {
            reveal_strlit("{\"rel_path\":");
            assert(enc_meta(m0).len() >= 1);
        }
        lemma_sp_metas_rest_of_enc(input, j2, acc.push(m0), v1);
        assert(acc.push(m0) + v1 =~= acc + v);
    }
}

/// The meta-list parser accepts an encoded list.
proof fn lemma_sp_metas_of_enc(input: Seq<char>, i: int, v: Seq<FileMetaView>)
    requires
        0 <= i,
        i + enc_metas(v).len() <= input.len(),
        input.subrange(i, i + enc_metas(v).len()) == enc_metas(v),
    ensures
        sp_metas(input, i) == Some((v, i + enc_metas(v).len())),
{
    reveal_strlit("[]");
    reveal_strlit("[");
    if v.len() == 0 {
        assert(enc_metas(v) =~= "[]"@);
        assert(sp_lit(input, i, "[]"@) == Some(i + 2));
        assert(Seq::<FileMetaView>::empty() =~= v);
    } else {
        let m0 = v[0];
        let v1 = v.drop_first();
        assert(enc_metas(v) == seq!['['] + enc_meta(m0) + enc_metas_rest(v1) + seq![']']);
        lemma_region_split(input, i, seq!['['] + enc_meta(m0) + enc_metas_rest(v1), seq![']']);
        lemma_region_split(input, i, seq!['['] + enc_meta(m0), enc_metas_rest(v1));
        lemma_region_split(input, i, seq!['['], enc_meta(m0));
        lemma_region_index(input, i, seq!['['], 0);
        if sp_lit(input, i, "[]"@) is Some {
            lemma_region_index(input, i, "[]"@, 1);
            reveal_strlit("{\"rel_path\":");
            lemma_region_index(input, i + 1, enc_meta(m0), 0);
            assert(enc_meta(m0)[0] == '{');
        }
        assert(sp_lit(input, i, "[]"@) is None);
        assert(input.subrange(i, i + 1) =~= "["@);
        assert(sp_lit(input, i, "["@) == Some(i + 1));
        let j1 = i + 1;
        let j2 = j1 + enc_meta(m0).len();
        lemma_sp_meta_of_enc(input, j1, m0);
        assert(sp_meta(input, j1) == Some((m0, j2)));
        let tail_end = j2 + enc_metas_rest(v1).len();
        assert(input[tail_end] == ']') by {
            reveal_strlit("]");
            lemma_region_index(input, tail_end, seq![']'], 0);
        }
        lemma_sp_metas_rest_of_enc(input, j2, seq![m0], v1);
        assert(seq![m0] + v1 =~= v);
    }
}

/// Whatever the meta-list tail parser returns extends the accumulator with
/// encoded elements.
proof fn lemma_sp_metas_rest_sound(input: Seq<char>, j: int, acc: Seq<FileMetaView>)
    requires
        0 <= j <= input.len(),
        sp_metas_rest(input, j, acc) is Some,
    ensures
        ({
            let (vv, k) = sp_metas_rest(input, j, acc)->0;
            &&& j < k <= input.len()
            &&& acc.len() <= vv.len()
            &&& vv.take(acc.len() as int) == acc
            &&& input.subrange(j, k) == enc_metas_rest(vv.skip(acc.len() as int)) + seq![']']
        }),
    decreases input.len() - j,
{
    reveal_strlit("]");
    reveal_strlit(",");
    let (vv, k) = sp_metas_rest(input, j, acc)->0;
    if sp_lit(input, j, "]"@) is Some {
        assert(vv == acc && k == j + 1);
        assert(vv.take(acc.len() as int) =~= acc);
        assert(vv.skip(acc.len() as int) =~= Seq::<FileMetaView>::empty());
        lemma_region_index(input, j, "]"@, 0);
        assert(input.subrange(j, k) =~= enc_metas_rest(vv.skip(acc.len() as int)) + seq![']']);
    } else {
        let k1 = sp_lit(input, j, ","@)->0;
        let (m, j2) = sp_meta(input, k1)->0;
        lemma_sp_meta_sound(input, k1);
        lemma_sp_metas_rest_sound(input, j2, acc.push(m));
        assert(vv.take(acc.len() as int) =~= acc) by {
            assert(vv.take((acc.len() + 1) as int) == acc.push(m));
            assert(forall|idx: int|
                0 <= idx < acc.len() ==> #[trigger] vv.take((acc.len() + 1) as int)[idx]
                    == vv[idx]);
        }
        assert(vv[acc.len() as int] == m) by {
            assert(vv.take((acc.len() + 1) as int)[acc.len() as int] == vv[acc.len() as int]);
        }
        let w = vv.skip(acc.len() as int);
        assert(w =~= seq![m] + vv.skip((acc.len() + 1) as int));
        assert(enc_metas_rest(w) == seq![','] + enc_meta(m) + enc_metas_rest(
            vv.skip((acc.len() + 1) as int),
        )) by {
            assert(w[0] == m);
            assert(w.drop_first() =~= vv.skip((acc.len() + 1) as int));
        }
        lemma_region_join(input, j, k1, j2);
        lemma_region_join(input, j, j2, k);
        assert(input.subrange(j, k1) =~= ","@);
        assert(","@ =~= seq![',']);
        assert(input.subrange(j, k) =~= enc_metas_rest(w) + seq![']']);
    }
}

/// Whatever the meta-list parser returns is an encoded list.
proof fn lemma_sp_metas_sound(input: Seq<char>, i: int)
    requires
        0 <= i,
        sp_metas(input, i) is Some,
    ensures
        ({
            let (vv, k) = sp_metas(input, i)->0;
            &&& i < k <= input.len()
            &&& input.subrange(i, k) == enc_metas(vv)
        }),
{
    reveal_strlit("[]");
    reveal_strlit("[");
    let (vv, k) = sp_metas(input, i)->0;
    if sp_lit(input, i, "[]"@) is Some {
        assert(input.subrange(i, k) =~= enc_metas(vv));
    } else {
        let j1 = sp_lit(input, i, "["@)->0;
        let (m, j2) = sp_meta(input, j1)->0;
        lemma_sp_meta_sound(input, j1);
        lemma_sp_metas_rest_sound(input, j2, seq![m]);
        let (vv2, k2) = sp_metas_rest(input, j2, seq![m])->0;
        assert(vv2 == vv && k2 == k);
        assert(vv[0] == m) by {
            assert(vv.take(1)[0] == vv[0]);
        }
        assert(vv.len() >= 1);
        assert(vv.skip(1) =~= vv.drop_first());
        lemma_region_join(input, i, j1, j2);
        lemma_region_join(input, i, j2, k);
        assert(input.subrange(i, j1) =~= seq!['[']);
        assert(enc_metas(vv) == seq!['['] + enc_meta(vv[0]) + enc_metas_rest(vv.drop_first())
            + seq![']']);
        assert(input.subrange(i, k) =~= enc_metas(vv));
    }
}


/// If one variant token sits at the start, another cannot.
proof fn lemma_tok_mismatch(input: Seq<char>, actual: Seq<char>, other: Seq<char>, idx: int)
    requires
        0 <= idx < actual.len(),
        0 <= idx < other.len(),
        actual[idx] != other[idx],
        actual.len() <= input.len(),
        input.subrange(0, actual.len() as int) == actual,
    ensures
        sp_lit(input, 0, other) is None,
{
    if sp_lit(input, 0, other) is Some {
        lemma_region_index(input, 0, other, idx);
        lemma_region_index(input, 0, actual, idx);
    }
}

/// The three pieces of a token + meta + closing-brace frame parse in turn.
proof fn lemma_meta_frame_parts(input: Seq<char>, tok: Seq<char>, m: FileMetaView)
    requires
        input == tok + enc_meta(m) + "}"@,
        "}"@.len() == 1,
        "}"@[0] == '}',
    ensures
        sp_lit(input, 0, tok) == Some(tok.len() as int),
        sp_meta(input, tok.len() as int) == Some((m, input.len() - 1)),
        sp_lit(input, (input.len() - 1) as int, "}"@) == Some(input.len() as int),
{
    assert(input.subrange(0, input.len() as int) =~= tok + enc_meta(m) + "}"@);
    lemma_region_split(input, 0, tok + enc_meta(m), "}"@);
    lemma_region_split(input, 0, tok, enc_meta(m));
    assert(sp_lit(input, 0, tok) == Some(tok.len() as int));
    lemma_sp_meta_of_enc(input, tok.len() as int, m);
}

/// A request frame decodes to the value it encodes.
#[verifier::rlimit(100)]
pub proof fn lemma_request_round_trip(v: WsRequestView)
    ensures
        sp_request(enc_request(v)) == Some(v),
{
    let input = enc_request(v);
    let t1 = "{\"CreateFile\":"@;
    let t2 = "{\"WriteFile\":"@;
    let t3 = "{\"ClearDir\":"@;
    reveal_strlit("{\"CreateFile\":");
    reveal_strlit("{\"WriteFile\":");
    reveal_strlit("{\"ClearDir\":");
    reveal_strlit("}");
    match v {
        WsRequestView::CreateFile(m) => {
            assert(input.subrange(0, input.len() as int) =~= t1 + enc_meta(m) + "}"@);
            lemma_region_split(input, 0, t1 + enc_meta(m), "}"@);
            lemma_region_split(input, 0, t1, enc_meta(m));
            assert(sp_lit(input, 0, t1) == Some(t1.len() as int));
            let j = t1.len() + enc_meta(m).len();
            lemma_sp_meta_of_enc(input, t1.len() as int, m);
            assert(sp_lit(input, j as int, "}"@) == Some(input.len() as int));
        },
        WsRequestView::WriteFile(e) => {
            assert(input.subrange(0, input.len() as int) =~= t2 + enc_entry(e) + "}"@);
            lemma_region_split(input, 0, t2 + enc_entry(e), "}"@);
            lemma_region_split(input, 0, t2, enc_entry(e));
            lemma_tok_mismatch(input, t2, t1, 2);
            assert(sp_lit(input, 0, t2) == Some(t2.len() as int));
            let j = t2.len() + enc_entry(e).len();
            lemma_sp_entry_of_enc(input, t2.len() as int, e);
            assert(sp_lit(input, j as int, "}"@) == Some(input.len() as int));
        },
        WsRequestView::ClearDir(ms) => {
            assert(input.subrange(0, input.len() as int) =~= t3 + enc_metas(ms) + "}"@);
            lemma_region_split(input, 0, t3 + enc_metas(ms), "}"@);
            lemma_region_split(input, 0, t3, enc_metas(ms));
            lemma_tok_mismatch(input, t3, t1, 3);
            lemma_tok_mismatch(input, t3, t2, 2);
            assert(sp_lit(input, 0, t3) == Some(t3.len() as int));
            let j = t3.len() + enc_metas(ms).len();
            lemma_sp_metas_of_enc(input, t3.len() as int, ms);
            assert(sp_lit(input, j as int, "}"@) == Some(input.len() as int));
        },
    }
}

/// Whatever the request decoder accepts is the encoding of its result.
#[verifier::rlimit(60)]
pub proof fn lemma_request_decode_sound(input: Seq<char>, v: WsRequestView)
    requires
        sp_request(input) == Some(v),
    ensures
        input == enc_request(v),
{
    let t1 = "{\"CreateFile\":"@;
    let t2 = "{\"WriteFile\":"@;
    let t3 = "{\"ClearDir\":"@;
    reveal_strlit("}");
    if sp_lit(input, 0, t1) is Some {
        let j1 = sp_lit(input, 0, t1)->0;
        let (m, j) = sp_meta(input, j1)->0;
        lemma_sp_meta_sound(input, j1);
        lemma_region_join(input, 0, j1, j);
        lemma_region_join(input, 0, j, j + 1);
        assert(input =~= input.subrange(0, input.len() as int));
        assert(input =~= t1 + enc_meta(m) + "}"@);
    } else if sp_lit(input, 0, t2) is Some {
        let j1 = sp_lit(input, 0, t2)->0;
        let (e, j) = sp_entry(input, j1)->0;
        lemma_sp_entry_sound(input, j1);
        lemma_region_join(input, 0, j1, j);
        lemma_region_join(input, 0, j, j + 1);
        assert(input =~= input.subrange(0, input.len() as int));
        assert(input =~= t2 + enc_entry(e) + "}"@);
    } else {
        let j1 = sp_lit(input, 0, t3)->0;
        let (ms, j) = sp_metas(input, j1)->0;
        lemma_sp_metas_sound(input, j1);
        lemma_region_join(input, 0, j1, j);
        lemma_region_join(input, 0, j, j + 1);
        assert(input =~= input.subrange(0, input.len() as int));
        assert(input =~= t3 + enc_metas(ms) + "}"@);
    }
}

/// A response frame decodes to the value it encodes.
#[verifier::rlimit(100)]
pub proof fn lemma_response_round_trip(v: WsResponseView)
    ensures
        sp_response(enc_response(v)) == Some(v),
{
    let input = enc_response(v);
    let r1 = "{\"CreateSuccess\":"@;
    let r2 = "{\"CreateFailed\":"@;
    let r3 = "{\"WriteSuccess\":"@;
    let r4 = "{\"WriteFailed\":"@;
    let r5 = "{\"ClearDirDone\":"@;
    reveal_strlit("{\"CreateSuccess\":");
    reveal_strlit("{\"CreateFailed\":");
    reveal_strlit("{\"WriteSuccess\":");
    reveal_strlit("{\"WriteFailed\":");
    reveal_strlit("{\"ClearDirDone\":");
    reveal_strlit("}");
    match v {
        WsResponseView::CreateSuccess(m) => {
            lemma_meta_frame_parts(input, r1, m);
        },
        WsResponseView::CreateFailed(m) => {
            lemma_meta_frame_parts(input, r2, m);
            lemma_tok_mismatch(input, r2, r1, 8);
        },
        WsResponseView::WriteSuccess(m) => {
            lemma_meta_frame_parts(input, r3, m);
            lemma_tok_mismatch(input, r3, r1, 2);
            lemma_tok_mismatch(input, r3, r2, 2);
        },
        WsResponseView::WriteFailed(m) => {
            lemma_meta_frame_parts(input, r4, m);
            lemma_tok_mismatch(input, r4, r1, 2);
            lemma_tok_mismatch(input, r4, r2, 2);
            lemma_tok_mismatch(input, r4, r3, 7);
        },
        WsResponseView::ClearDirDone(ms) => {
            assert(input.subrange(0, input.len() as int) =~= r5 + enc_metas(ms) + "}"@);
            lemma_region_split(input, 0, r5 + enc_metas(ms), "}"@);
            lemma_region_split(input, 0, r5, enc_metas(ms));
            lemma_tok_mismatch(input, r5, r1, 3);
            lemma_tok_mismatch(input, r5, r2, 3);
            lemma_tok_mismatch(input, r5, r3, 2);
            lemma_tok_mismatch(input, r5, r4, 2);
            assert(sp_lit(input, 0, r5) == Some(r5.len() as int));
            let j = r5.len() + enc_metas(ms).len();
            lemma_sp_metas_of_enc(input, r5.len() as int, ms);
            assert(sp_lit(input, j as int, "}"@) == Some(input.len() as int));
        },
    }
}

/// The consumed pieces of a token + meta + brace frame join to the input.
proof fn lemma_frame_sound_meta(input: Seq<char>, tok: Seq<char>)
    requires
        sp_lit(input, 0, tok) is Some,
        sp_meta(input, sp_lit(input, 0, tok)->0) is Some,
        sp_lit(input, (sp_meta(input, sp_lit(input, 0, tok)->0)->0).1, "}"@) == Some(
            input.len() as int,
        ),
    ensures
        input == tok + enc_meta((sp_meta(input, sp_lit(input, 0, tok)->0)->0).0) + "}"@,
{
    reveal_strlit("}");
    let j1 = sp_lit(input, 0, tok)->0;
    let (m, j) = sp_meta(input, j1)->0;
    lemma_sp_meta_sound(input, j1);
    lemma_region_join(input, 0, j1, j);
    lemma_region_join(input, 0, j, j + 1);
    assert(input =~= input.subrange(0, input.len() as int));
    assert(input =~= tok + enc_meta(m) + "}"@);
}

/// Whatever the response decoder accepts is the encoding of its result.
#[verifier::rlimit(100)]
pub proof fn lemma_response_decode_sound(input: Seq<char>, v: WsResponseView)
    requires
        sp_response(input) == Some(v),
    ensures
        input == enc_response(v),
{
    let r1 = "{\"CreateSuccess\":"@;
    let r2 = "{\"CreateFailed\":"@;
    let r3 = "{\"WriteSuccess\":"@;
    let r4 = "{\"WriteFailed\":"@;
    let r5 = "{\"ClearDirDone\":"@;
    reveal_strlit("}");
    if sp_lit(input, 0, r1) is Some {
        lemma_frame_sound_meta(input, r1);
    } else if sp_lit(input, 0, r2) is Some {
        lemma_frame_sound_meta(input, r2);
    } else if sp_lit(input, 0, r3) is Some {
        lemma_frame_sound_meta(input, r3);
    } else if sp_lit(input, 0, r4) is Some {
        lemma_frame_sound_meta(input, r4);
    } else {
        let j1 = sp_lit(input, 0, r5)->0;
        let (ms, j) = sp_metas(input, j1)->0;
        lemma_sp_metas_sound(input, j1);
        lemma_region_join(input, 0, j1, j);
        lemma_region_join(input, 0, j, j + 1);
        assert(input =~= input.subrange(0, input.len() as int));
        assert(input =~= r5 + enc_metas(ms) + "}"@);
    }
}


/// The value of a decimal digit character.
fn dec_val_exec(c: char) -> (r: Option<u64>)
    ensures
        r == dec_val(c),
{
    if c == '0' {
        Some(0)
    } else if c == '1' {
        Some(1)
    } else if c == '2' {
        Some(2)
    } else if c == '3' {
        Some(3)
    } else if c == '4' {
        Some(4)
    } else if c == '5' {
        Some(5)
    } else if c == '6' {
        Some(6)
    } else if c == '7' {
        Some(7)
    } else if c == '8' {
        Some(8)
    } else if c == '9' {
        Some(9)
    } else {
        None
    }
}

/// The value of a lowercase hex digit character.
fn hex_val_exec(c: char) -> (r: Option<u32>)
    ensures
        r == hex_val(c),
{
    if c == '0' {
        Some(0)
    } else if c == '1' {
        Some(1)
    } else if c == '2' {
        Some(2)
    } else if c == '3' {
        Some(3)
    } else if c == '4' {
        Some(4)
    } else if c == '5' {
        Some(5)
    } else if c == '6' {
        Some(6)
    } else if c == '7' {
        Some(7)
    } else if c == '8' {
        Some(8)
    } else if c == '9' {
        Some(9)
    } else if c == 'a' {
        Some(10)
    } else if c == 'b' {
        Some(11)
    } else if c == 'c' {
        Some(12)
    } else if c == 'd' {
        Some(13)
    } else if c == 'e' {
        Some(14)
    } else if c == 'f' {
        Some(15)
    } else {
        None
    }
}

/// The control character with the given code.
fn ctrl_char_exec(code: u32) -> (c: char)
    requires
        code < 32,
    ensures
        c == ctrl_char(code),
{
    if code == 0 {
        '\u{0}'
    } else if code == 1 {
        '\u{1}'
    } else if code == 2 {
        '\u{2}'
    } else if code == 3 {
        '\u{3}'
    } else if code == 4 {
        '\u{4}'
    } else if code == 5 {
        '\u{5}'
    } else if code == 6 {
        '\u{6}'
    } else if code == 7 {
        '\u{7}'
    } else if code == 8 {
        '\u{8}'
    } else if code == 9 {
        '\u{9}'
    } else if code == 10 {
        '\u{a}'
    } else if code == 11 {
        '\u{b}'
    } else if code == 12 {
        '\u{c}'
    } else if code == 13 {
        '\u{d}'
    } else if code == 14 {
        '\u{e}'
    } else if code == 15 {
        '\u{f}'
    } else if code == 16 {
        '\u{10}'
    } else if code == 17 {
        '\u{11}'
    } else if code == 18 {
        '\u{12}'
    } else if code == 19 {
        '\u{13}'
    } else if code == 20 {
        '\u{14}'
    } else if code == 21 {
        '\u{15}'
    } else if code == 22 {
        '\u{16}'
    } else if code == 23 {
        '\u{17}'
    } else if code == 24 {
        '\u{18}'
    } else if code == 25 {
        '\u{19}'
    } else if code == 26 {
        '\u{1a}'
    } else if code == 27 {
        '\u{1b}'
    } else if code == 28 {
        '\u{1c}'
    } else if code == 29 {
        '\u{1d}'
    } else if code == 30 {
        '\u{1e}'
    } else {
        '\u{1f}'
    }
}

/// Match the characters of `lit` at position `i`.
fn expect_lit(input: &Vec<char>, i: usize, lit: &str) -> (r: Option<usize>)
    ensures
        match r {
            Some(j) => sp_lit(input@, i as int, lit@) == Some(j as int),
            None => sp_lit(input@, i as int, lit@) is None,
        },
{
    let cs = chars_of(lit);
    if i > input.len() || cs.len() > input.len() - i {
        return None;
    }
    let mut k: usize = 0;
    while k < cs.len()
        invariant
            cs@ == lit@,
            i + cs.len() <= input.len(),
            k <= cs.len(),
            forall|q: int| 0 <= q < k ==> input@[i + q] == cs@[q],
        decreases cs.len() - k,
    {
        if input[i + k] != cs[k] {
            proof {
                if sp_lit(input@, i as int, lit@) is Some {
                    assert(input@.subrange(i as int, i + lit@.len())[k as int] == input@[i + k]);
                }
            }
            return None;
        }
        k = k + 1;
    }
    proof {
        assert(input@.subrange(i as int, i + lit@.len()) =~= lit@) by {
            assert forall|q: int| 0 <= q < lit@.len() implies input@.subrange(
                i as int,
                i + lit@.len(),
            )[q] == lit@[q] by {
                assert(input@.subrange(i as int, i + lit@.len())[q] == input@[i + q]);
            }
        }
    }
    Some(i + cs.len())
}

/// Parse a canonical decimal number.
fn parse_u64(input: &Vec<char>, i: usize) -> (r: Option<(u64, usize)>)
    ensures
        r is Some <==> sp_u64(input@, i as int) is Some,
        r is Some ==> {
            let (n, k) = sp_u64(input@, i as int)->0;
            (r->0).0 == n && (r->0).1 as int == k
        },
{
    if i >= input.len() {
        return None;
    }
    let c0 = input[i];
    if c0 == '0' {
        return Some((0, i + 1));
    }
    if dec_val_exec(c0).is_none() {
        return None;
    }
    let mut j: usize = i;
    let mut acc: u64 = 0;
    loop
        invariant
            i <= j <= input.len(),
            sp_u64_rest(input@, i as int, 0) == sp_u64_rest(input@, j as int, acc),
            sp_u64(input@, i as int) == sp_u64_rest(input@, i as int, 0),
        decreases input.len() - j,
    {
        if j >= input.len() {
            return Some((acc, j));
        }
        match dec_val_exec(input[j]) {
            None => {
                return Some((acc, j));
            },
            Some(d) => {
                if acc <= (u64::MAX - d) / 10 {
                    proof {
                        assert(acc * 10 + d <= u64::MAX) by (nonlinear_arith)
                            requires
                                acc <= (u64::MAX - d) / 10,
                                0 <= d < 10,
                                acc >= 0,
                        ;
                    }
                    let ghost jg = j as int;
                    let ghost accg = acc;
                    acc = acc * 10 + d;
                    j = j + 1;
                    proof {
                        assert(sp_u64_rest(input@, jg, accg) == sp_u64_rest(
                            input@,
                            j as int,
                            acc,
                        ));
                    }
                } else {
                    return None;
                }
            },
        }
    }
}

/// Parse a JSON string.
fn parse_string(input: &Vec<char>, i: usize) -> (r: Option<(Vec<char>, usize)>)
    ensures
        r is Some <==> sp_string(input@, i as int) is Some,
        r is Some ==> {
            let (sv, k) = sp_string(input@, i as int)->0;
            (r->0).0@ == sv && (r->0).1 as int == k
        },
{
    if i >= input.len() || input[i] != '"' {
        return None;
    }
    let mut j: usize = i + 1;
    let mut out: Vec<char> = Vec::new();
    proof {
        assert(out@ =~= Seq::<char>::empty());
    }
    loop
        invariant
            i + 1 <= j <= input.len(),
            sp_string(input@, i as int) == sp_str_body(input@, j as int, out@),
        decreases input.len() - j,
    {
        let ghost jg = j as int;
        let ghost outg = out@;
        if j >= input.len() {
            return None;
        }
        let c = input[j];
        if c == '"' {
            return Some((out, j + 1));
        }
        if c == '\\' {
            if input.len() - j <= 1 {
                return None;
            }
            let e = input[j + 1];
            if e == '"' {
                out.push('"');
                j = j + 2;
            } else if e == '\\' {
                out.push('\\');
                j = j + 2;
            } else if e == 'b' {
                out.push('\u{8}');
                j = j + 2;
            } else if e == 't' {
                out.push('\t');
                j = j + 2;
            } else if e == 'n' {
                out.push('\n');
                j = j + 2;
            } else if e == 'f' {
                out.push('\u{c}');
                j = j + 2;
            } else if e == 'r' {
                out.push('\r');
                j = j + 2;
            } else if e == 'u' {
                if input.len() - j <= 5 {
                    return None;
                }
                if input[j + 2] != '0' || input[j + 3] != '0' {
                    return None;
                }
                let h1 = match hex_val_exec(input[j + 4]) {
                    None => {
                        return None;
                    },
                    Some(h) => h,
                };
                let h2 = match hex_val_exec(input[j + 5]) {
                    None => {
                        return None;
                    },
                    Some(h) => h,
                };
                let code: u32 = h1 * 16 + h2;
                if code < 32 && code != 8 && code != 9 && code != 10 && code != 12 && code != 13 {
                    out.push(ctrl_char_exec(code));
                    j = j + 6;
                } else {
                    return None;
                }
            } else {
                return None;
            }
        } else if (c as u32) < 32 {
            return None;
        } else {
            out.push(c);
            j = j + 1;
        }
        proof {
            assert(sp_str_body(input@, jg, outg) == sp_str_body(input@, j as int, out@));
        }
    }
}

/// Parse an entry type name.
fn parse_entry_type(input: &Vec<char>, i: usize) -> (r: Option<(EntryType, usize)>)
    ensures
        r is Some <==> sp_entry_type(input@, i as int) is Some,
        r is Some ==> {
            let (t, k) = sp_entry_type(input@, i as int)->0;
            (r->0).0 == t && (r->0).1 as int == k
        },
{
    if let Some(j) = expect_lit(input, i, "\"File\"") {
        return Some((EntryType::File, j));
    }
    if let Some(j) = expect_lit(input, i, "\"Dir\"") {
        return Some((EntryType::Dir, j));
    }
    if let Some(j) = expect_lit(input, i, "\"SymLink\"") {
        return Some((EntryType::SymLink, j));
    }
    None
}

/// Parse a file meta object.
fn parse_meta(input: &Vec<char>, i: usize) -> (r: Option<(FileMeta, usize)>)
    ensures
        r is Some <==> sp_meta(input@, i as int) is Some,
        r is Some ==> {
            let (m, k) = sp_meta(input@, i as int)->0;
            (r->0).0@ == m && (r->0).1 as int == k
        },
{
    let j1 = match expect_lit(input, i, "{\"rel_path\":") {
        None => {
            return None;
        },
        Some(j) => j,
    };
    let (rel_chars, j2) = match parse_string(input, j1) {
        None => {
            return None;
        },
        Some(p) => p,
    };
    let j3 = match expect_lit(input, j2, ",\"entry_type\":") {
        None => {
            return None;
        },
        Some(j) => j,
    };
    let (entry_type, j4) = match parse_entry_type(input, j3) {
        None => {
            return None;
        },
        Some(p) => p,
    };
    let j5 = match expect_lit(input, j4, ",\"file_size\":") {
        None => {
            return None;
        },
        Some(j) => j,
    };
    let (file_size, j6) = match parse_u64(input, j5) {
        None => {
            return None;
        },
        Some(p) => p,
    };
    let j7 = match expect_lit(input, j6, "}") {
        None => {
            return None;
        },
        Some(j) => j,
    };
    let rel_path = string_from_chars(&rel_chars);
    let meta = FileMeta::new(rel_path, entry_type, file_size);
    Some((meta, j7))
}

/// Parse a byte payload array.
fn parse_bytes(input: &Vec<char>, i: usize) -> (r: Option<(Vec<u8>, usize)>)
    ensures
        r is Some <==> sp_bytes(input@, i as int) is Some,
        r is Some ==> {
            let (p, k) = sp_bytes(input@, i as int)->0;
            (r->0).0@ == p && (r->0).1 as int == k
        },
{
    if let Some(j) = expect_lit(input, i, "[]") {
        let out: Vec<u8> = Vec::new();
        proof {
            assert(out@ =~= Seq::<u8>::empty());
        }
        return Some((out, j));
    }
    let j1 = match expect_lit(input, i, "[") {
        None => {
            return None;
        },
        Some(j) => j,
    };
    let (n0, j2) = match parse_u64(input, j1) {
        None => {
            return None;
        },
        Some(p) => p,
    };
    if n0 > 255 {
        return None;
    }
    let mut out: Vec<u8> = Vec::new();
    out.push(n0 as u8);
    proof {
        assert(out@ =~= seq![n0 as u8]);
        lemma_sp_u64_sound(input@, j1 as int);
    }
    let mut j: usize = j2;
    loop
        invariant
            j <= input.len(),
            sp_bytes(input@, i as int) == sp_bytes_rest(input@, j as int, out@),
        decreases input.len() - j,
    {
        if let Some(k) = expect_lit(input, j, "]") {
            return Some((out, k));
        }
        let ghost jg = j as int;
        let ghost outg = out@;
        let k = match expect_lit(input, j, ",") {
            None => {
                return None;
            },
            Some(k) => k,
        };
        let (n, jn) = match parse_u64(input, k) {
            None => {
                return None;
            },
            Some(p) => p,
        };
        if n > 255 {
            return None;
        }
        proof {
            lemma_sp_u64_sound(input@, k as int);
            reveal_strlit(",");
        }
        out.push(n as u8);
        j = jn;
        proof {
            assert(sp_bytes_rest(input@, jg, outg) == sp_bytes_rest(input@, j as int, out@));
        }
    }
}

/// Parse a file chunk object.
fn parse_chunk(input: &Vec<char>, i: usize) -> (r: Option<(FileChunk, usize)>)
    ensures
        r is Some <==> sp_chunk(input@, i as int) is Some,
        r is Some ==> {
            let (c, k) = sp_chunk(input@, i as int)->0;
            (r->0).0@ == c && (r->0).1 as int == k
        },
{
    let j1 = match expect_lit(input, i, "{\"offset\":") {
        None => {
            return None;
        },
        Some(j) => j,
    };
    let (offset, j2) = match parse_u64(input, j1) {
        None => {
            return None;
        },
        Some(p) => p,
    };
    let j3 = match expect_lit(input, j2, ",\"payload\":") {
        None => {
            return None;
        },
        Some(j) => j,
    };
    let (payload, j4) = match parse_bytes(input, j3) {
        None => {
            return None;
        },
        Some(p) => p,
    };
    let j5 = match expect_lit(input, j4, "}") {
        None => {
            return None;
        },
        Some(j) => j,
    };
    let chunk = FileChunk::new(offset, payload);
    Some((chunk, j5))
}

/// Parse a file entry object.
fn parse_entry(input: &Vec<char>, i: usize) -> (r: Option<(FileEntry, usize)>)
    ensures
        r is Some <==> sp_entry(input@, i as int) is Some,
        r is Some ==> {
            let (e, k) = sp_entry(input@, i as int)->0;
            (r->0).0@ == e && (r->0).1 as int == k
        },
{
    let j1 = match expect_lit(input, i, "{\"file_meta\":") {
        None => {
            return None;
        },
        Some(j) => j,
    };
    let (file_meta, j2) = match parse_meta(input, j1) {
        None => {
            return None;
        },
        Some(p) => p,
    };
    let j3 = match expect_lit(input, j2, ",\"file_chunk\":") {
        None => {
            return None;
        },
        Some(j) => j,
    };
    let (file_chunk, j4): (Option<FileChunk>, usize) = match expect_lit(input, j3, "null") {
        Some(j) => (None, j),
        None => {
            match parse_chunk(input, j3) {
                None => {
                    return None;
                },
                Some((c, j)) => (Some(c), j),
            }
        },
    };
    let j5 = match expect_lit(input, j4, "}") {
        None => {
            return None;
        },
        Some(j) => j,
    };
    let entry = FileEntry::new(file_meta, file_chunk);
    Some((entry, j5))
}

/// Parse a meta list array.
fn parse_metas(input: &Vec<char>, i: usize) -> (r: Option<(Vec<FileMeta>, usize)>)
    ensures
        r is Some <==> sp_metas(input@, i as int) is Some,
        r is Some ==> {
            let (v, k) = sp_metas(input@, i as int)->0;
            metas_view((r->0).0@) == v && (r->0).1 as int == k
        },
{
    if let Some(j) = expect_lit(input, i, "[]") {
        let out: Vec<FileMeta> = Vec::new();
        proof {
            assert(metas_view(out@) =~= Seq::<FileMetaView>::empty());
        }
        return Some((out, j));
    }
    let j1 = match expect_lit(input, i, "[") {
        None => {
            return None;
        },
        Some(j) => j,
    };
    let (m0, j2) = match parse_meta(input, j1) {
        None => {
            return None;
        },
        Some(p) => p,
    };
    let mut out: Vec<FileMeta> = Vec::new();
    let ghost m0v = m0@;
    out.push(m0);
    proof {
        assert(metas_view(out@) =~= seq![m0v]);
        lemma_sp_meta_sound(input@, j1 as int);
    }
    let mut j: usize = j2;
    loop
        invariant
            j <= input.len(),
            sp_metas(input@, i as int) == sp_metas_rest(input@, j as int, metas_view(out@)),
        decreases input.len() - j,
    {
        if let Some(k) = expect_lit(input, j, "]") {
            return Some((out, k));
        }
        let ghost jg = j as int;
        let ghost outg = metas_view(out@);
        let k = match expect_lit(input, j, ",") {
            None => {
                return None;
            },
            Some(k) => k,
        };
        let (m, jn) = match parse_meta(input, k) {
            None => {
                return None;
            },
            Some(p) => p,
        };
        proof {
            lemma_sp_meta_sound(input@, k as int);
            reveal_strlit(",");
        }
        let ghost mv = m@;
        out.push(m);
        j = jn;
        proof {
            assert(metas_view(out@) =~= outg.push(mv));
            assert(sp_metas_rest(input@, jg, outg) == sp_metas_rest(
                input@,
                j as int,
                metas_view(out@),
            ));
        }
    }
}

/// Decode one request frame; accepts exactly the canonical frames.
#[verifier::rlimit(100)]
pub fn decode_request(input: &Vec<char>) -> (r: Option<WsRequest>)
    ensures
        match sp_request(input@) {
            None => r is None,
            Some(v) => r is Some && r->0@ == v,
        },
        r is Some ==> input@ == enc_request(r->0@),
        forall|v: WsRequestView| input@ == enc_request(v) ==> r is Some && r->0@ == v,
{
    let r: Option<WsRequest> = if let Some(j1) = expect_lit(input, 0, "{\"CreateFile\":") {
        match parse_meta(input, j1) {
            None => None,
            Some((m, j)) => match expect_lit(input, j, "}") {
                Some(k) => if k == input.len() {
                    Some(WsRequest::CreateFile(m))
                } else {
                    None
                },
                _ => None,
            },
        }
    } else if let Some(j1) = expect_lit(input, 0, "{\"WriteFile\":") {
        match parse_entry(input, j1) {
            None => None,
            Some((e, j)) => match expect_lit(input, j, "}") {
                Some(k) => if k == input.len() {
                    Some(WsRequest::WriteFile(e))
                } else {
                    None
                },
                _ => None,
            },
        }
    } else if let Some(j1) = expect_lit(input, 0, "{\"ClearDir\":") {
        match parse_metas(input, j1) {
            None => None,
            Some((v, j)) => match expect_lit(input, j, "}") {
                Some(k) => if k == input.len() {
                    Some(WsRequest::ClearDir(v))
                } else {
                    None
                },
                _ => None,
            },
        }
    } else {
        None
    };
    proof {
        if sp_request(input@) is Some {
            lemma_request_decode_sound(input@, sp_request(input@)->0);
        }
        assert forall|v: WsRequestView| input@ == enc_request(v) implies r is Some && r->0@
            == v by {
            lemma_request_round_trip(v);
        }
    }
    r
}

/// Decode one response frame; accepts exactly the canonical frames.
#[verifier::rlimit(100)]
pub fn decode_response(input: &Vec<char>) -> (r: Option<WsResponse>)
    ensures
        match sp_response(input@) {
            None => r is None,
            Some(v) => r is Some && r->0@ == v,
        },
        r is Some ==> input@ == enc_response(r->0@),
        forall|v: WsResponseView| input@ == enc_response(v) ==> r is Some && r->0@ == v,
{
    let r: Option<WsResponse> = if let Some(j1) = expect_lit(input, 0, "{\"CreateSuccess\":") {
        match parse_meta(input, j1) {
            None => None,
            Some((m, j)) => match expect_lit(input, j, "}") {
                Some(k) => if k == input.len() {
                    Some(WsResponse::CreateSuccess(m))
                } else {
                    None
                },
                _ => None,
            },
        }
    } else if let Some(j1) = expect_lit(input, 0, "{\"CreateFailed\":") {
        match parse_meta(input, j1) {
            None => None,
            Some((m, j)) => match expect_lit(input, j, "}") {
                Some(k) => if k == input.len() {
                    Some(WsResponse::CreateFailed(m))
                } else {
                    None
                },
                _ => None,
            },
        }
    } else if let Some(j1) = expect_lit(input, 0, "{\"WriteSuccess\":") {
        match parse_meta(input, j1) {
            None => None,
            Some((m, j)) => match expect_lit(input, j, "}") {
                Some(k) => if k == input.len() {
                    Some(WsResponse::WriteSuccess(m))
                } else {
                    None
                },
                _ => None,
            },
        }
    } else if let Some(j1) = expect_lit(input, 0, "{\"WriteFailed\":") {
        match parse_meta(input, j1) {
            None => None,
            Some((m, j)) => match expect_lit(input, j, "}") {
                Some(k) => if k == input.len() {
                    Some(WsResponse::WriteFailed(m))
                } else {
                    None
                },
                _ => None,
            },
        }
    } else if let Some(j1) = expect_lit(input, 0, "{\"ClearDirDone\":") {
        match parse_metas(input, j1) {
            None => None,
            Some((v, j)) => match expect_lit(input, j, "}") {
                Some(k) => if k == input.len() {
                    Some(WsResponse::ClearDirDone(v))
                } else {
                    None
                },
                _ => None,
            },
        }
    } else {
        None
    };
    proof {
        if sp_response(input@) is Some {
            lemma_response_decode_sound(input@, sp_response(input@)->0);
        }
        assert forall|v: WsResponseView| input@ == enc_response(v) implies r is Some && r->0@
            == v by {
            lemma_response_round_trip(v);
        }
    }
    r
}

} // verus!
