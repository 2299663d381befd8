//! The frame codec: the wire grammar as specification functions over byte
//! sequences, the verified check/parse passes over a buffer, the verified
//! encoder, and the laws that tie them together (round trip, incremental
//! feed, buffer discipline).

use vstd::prelude::*;
use crate::digits::{all_digits, dec_digits, dec_value, int_digits, int_line_value, is_digit};
use crate::frame::{crlf_free, Frame, FrameModel, CR, LF};
use crate::utf8::is_utf8;

verus! {

broadcast use vstd::std_specs::vec::group_vec_axioms, vstd::seq::group_seq_axioms;

pub const TAG_SIMPLE: u8 = 43;  // '+'
pub const TAG_ERROR: u8 = 45;  // '-'
pub const TAG_INTEGER: u8 = 58;  // ':'
pub const TAG_BULK: u8 = 36;  // '$'
pub const TAG_ARRAY: u8 = 42;  // '*'

/// Position of the first CR-LF pair at or after `pos`, if a whole pair is
/// present.
pub open spec fn find_crlf(b: Seq<u8>, pos: int) -> Option<int>
    decreases b.len() - pos,
{
    if pos < 0 || pos + 2 > b.len() {
        None::<int>
    } else if b[pos] == CR && b[pos + 1] == LF {
        Some(pos)
    } else {
        find_crlf(b, pos + 1)
    }
}

pub proof fn lemma_find_crlf_found(b: Seq<u8>, pos: int, i: int)
    requires
        0 <= pos <= i,
        i + 2 <= b.len(),
        b[i] == CR,
        b[i + 1] == LF,
        forall|j: int| #![trigger b[j]] pos <= j < i ==> !(b[j] == CR && b[j + 1] == LF),
    ensures
        find_crlf(b, pos) == Some(i),
    decreases i - pos,
{
    if pos < i {
        lemma_find_crlf_found(b, pos + 1, i);
    }
}

pub proof fn lemma_find_crlf_none(b: Seq<u8>, pos: int)
    requires
        0 <= pos,
        forall|j: int| #![trigger b[j]] pos <= j && j + 2 <= b.len() ==> !(b[j] == CR && b[j
            + 1] == LF),
    ensures
        find_crlf(b, pos) == None::<int>,
    decreases b.len() - pos,
{
    if pos + 2 <= b.len() {
        lemma_find_crlf_none(b, pos + 1);
    }
}

pub proof fn lemma_find_crlf_props(b: Seq<u8>, pos: int, i: int)
    requires
        0 <= pos,
        find_crlf(b, pos) == Some(i),
    ensures
        pos <= i,
        i + 2 <= b.len(),
        b[i] == CR,
        b[i + 1] == LF,
        forall|j: int| #![trigger b[j]] pos <= j < i ==> !(b[j] == CR && b[j + 1] == LF),
    decreases b.len() - pos,
{
    if pos + 2 > b.len() {
    } else if b[pos] == CR && b[pos + 1] == LF {
    } else {
        lemma_find_crlf_props(b, pos + 1, i);
    }
}

/// What the front of `b` decodes to: a complete frame together with the
/// count of bytes it occupies, a signal that more bytes are needed, or
/// malformed input.
pub enum Decoding {
    Done(FrameModel, int),
    Partial,
    Bad,
}

pub enum DecodingSeq {
    Done(Seq<FrameModel>, int),
    Partial,
    Bad,
}

/// Decode one frame from the front of `b`.
pub open spec fn spec_decode(b: Seq<u8>) -> Decoding
    decreases b.len(), 0int,
{
    if b.len() == 0 {
        Decoding::Partial
    } else if b[0] == TAG_SIMPLE || b[0] == TAG_ERROR {
        match find_crlf(b, 1) {
            None => Decoding::Partial,
            Some(i) => {
                let line = b.subrange(1, i);
                if is_utf8(line) {
                    if b[0] == TAG_SIMPLE {
                        Decoding::Done(FrameModel::Simple(line), i + 2)
                    } else {
                        Decoding::Done(FrameModel::Error(line), i + 2)
                    }
                } else {
                    Decoding::Bad
                }
            },
        }
    } else if b[0] == TAG_INTEGER {
        match find_crlf(b, 1) {
            None => Decoding::Partial,
            Some(i) => match int_line_value(b.subrange(1, i)) {
                Some(v) => Decoding::Done(FrameModel::Integer(v), i + 2),
                None => Decoding::Bad,
            },
        }
    } else if b[0] == TAG_BULK {
        match find_crlf(b, 1) {
            None => Decoding::Partial,
            Some(i) => {
                let line = b.subrange(1, i);
                if line == seq![45u8, 49u8] {
                    Decoding::Done(FrameModel::Null, i + 2)
                } else if line.len() >= 1 && all_digits(line) && dec_value(line) <= u64::MAX {
                    let n = dec_value(line);
                    if b.len() < i + 2 + n + 2 {
                        Decoding::Partial
                    } else if b[i + 2 + n] == CR && b[i + 2 + n + 1] == LF {
                        Decoding::Done(FrameModel::Bulk(b.subrange(i + 2, i + 2 + n)), i + 2 + n
                            + 2)
                    } else {
                        Decoding::Bad
                    }
                } else {
                    Decoding::Bad
                }
            },
        }
    } else if b[0] == TAG_ARRAY {
        match find_crlf(b, 1) {
            None => Decoding::Partial,
            Some(i) => {
                let line = b.subrange(1, i);
                if line.len() >= 1 && all_digits(line) && dec_value(line) <= u64::MAX {
                    if 1 <= i && i + 2 <= b.len() {
                        match spec_decode_seq(b.skip(i + 2), dec_value(line) as nat) {
                            DecodingSeq::Done(items, used) => Decoding::Done(
                                FrameModel::Array(items),
                                i + 2 + used,
                            ),
                            DecodingSeq::Partial => Decoding::Partial,
                            DecodingSeq::Bad => Decoding::Bad,
                        }
                    } else {
                        Decoding::Bad
                    }
                } else {
                    Decoding::Bad
                }
            },
        }
    } else {
        Decoding::Bad
    }
}

/// Decode `n` frames in sequence from the front of `b`.
pub open spec fn spec_decode_seq(b: Seq<u8>, n: nat) -> DecodingSeq
    decreases b.len(), n,
{
    if n == 0 {
        DecodingSeq::Done(Seq::empty(), 0)
    } else {
        match spec_decode(b) {
            Decoding::Done(f, used) => {
                if 1 <= used && used <= b.len() {
                    match spec_decode_seq(b.skip(used), (n - 1) as nat) {
                        DecodingSeq::Done(items, used2) => DecodingSeq::Done(
                            seq![f] + items,
                            used + used2,
                        ),
                        DecodingSeq::Partial => DecodingSeq::Partial,
                        DecodingSeq::Bad => DecodingSeq::Bad,
                    }
                } else {
                    DecodingSeq::Bad
                }
            },
            Decoding::Partial => DecodingSeq::Partial,
            Decoding::Bad => DecodingSeq::Bad,
        }
    }
}

/// A complete frame occupies at least its tag and delimiter and never more
/// than the buffer.
pub proof fn lemma_decode_bounds(b: Seq<u8>)
    ensures
        spec_decode(b) matches Decoding::Done(f, used) ==> 3 <= used <= b.len(),
    decreases b.len(), 0int,
{
    if b.len() == 0 {
    } else if b[0] == TAG_SIMPLE || b[0] == TAG_ERROR || b[0] == TAG_INTEGER || b[0]
        == TAG_BULK {
        match find_crlf(b, 1) {
            None => {},
            Some(i) => {
                lemma_find_crlf_props(b, 1, i);
                if b[0] == TAG_BULK {
                    let line = b.subrange(1, i);
                    if line == seq![45u8, 49u8] {
                    } else if line.len() >= 1 && all_digits(line) && dec_value(line)
                        <= u64::MAX {
                        crate::digits::lemma_dec_value_nonneg(line);
                    }
                }
            },
        }
    } else if b[0] == TAG_ARRAY {
        match find_crlf(b, 1) {
            None => {},
            Some(i) => {
                lemma_find_crlf_props(b, 1, i);
                let line = b.subrange(1, i);
                if line.len() >= 1 && all_digits(line) && dec_value(line) <= u64::MAX && 1 <= i
                    && i + 2 <= b.len() {
                    lemma_decode_seq_bounds(b.skip(i + 2), dec_value(line) as nat);
                }
            },
        }
    }
}

pub proof fn lemma_decode_seq_bounds(b: Seq<u8>, n: nat)
    ensures
        spec_decode_seq(b, n) matches DecodingSeq::Done(items, used) ==> 0 <= used <= b.len()
            && items.len() == n,
    decreases b.len(), n,
{
    if n == 0 {
    } else {
        lemma_decode_bounds(b);
        match spec_decode(b) {
            Decoding::Done(f, used) => {
                if 1 <= used && used <= b.len() {
                    lemma_decode_seq_bounds(b.skip(used), (n - 1) as nat);
                }
            },
            Decoding::Partial => {},
            Decoding::Bad => {},
        }
    }
}

/// A decoded frame is itself well-formed: decoding only ever yields values
/// a caller could have constructed, so they encode again.
pub proof fn lemma_decode_well_formed(b: Seq<u8>)
    ensures
        spec_decode(b) matches Decoding::Done(m, _) ==> m.well_formed(),
    decreases b.len(), 0int,
{
    if b.len() == 0 {
    } else if b[0] == TAG_SIMPLE || b[0] == TAG_ERROR || b[0] == TAG_INTEGER || b[0]
        == TAG_BULK {
        match find_crlf(b, 1) {
            None => {},
            Some(i) => {
                lemma_find_crlf_props(b, 1, i);
                let line = b.subrange(1, i);
                assert forall|j: int| #![trigger line[j]] 0 <= j && j + 1 < line.len() implies !(
                line[j] == CR && line[j + 1] == LF) by {
                    assert(b[1 + j] == line[j]);
                    assert(b[1 + j + 1] == line[j + 1]);
                }
                if b[0] == TAG_SIMPLE || b[0] == TAG_ERROR {
                    if is_utf8(line) {
                        assert(FrameModel::Simple(line).well_formed());
                        assert(FrameModel::Error(line).well_formed());
                    }
                }
                if b[0] == TAG_BULK {
                    if line == seq![45u8, 49u8] {
                    } else if line.len() >= 1 && all_digits(line) && dec_value(line)
                        <= u64::MAX {
                        crate::digits::lemma_dec_value_nonneg(line);
                        let n = dec_value(line);
                        if b.len() >= i + 2 + n + 2 {
                            assert(b.subrange(i + 2, i + 2 + n).len() == n);
                            assert(FrameModel::Bulk(b.subrange(i + 2, i + 2 + n)).well_formed());
                        }
                    }
                }
            },
        }
    } else if b[0] == TAG_ARRAY {
        match find_crlf(b, 1) {
            None => {},
            Some(i) => {
                lemma_find_crlf_props(b, 1, i);
                let line = b.subrange(1, i);
                if line.len() >= 1 && all_digits(line) && dec_value(line) <= u64::MAX && 1 <= i
                    && i + 2 <= b.len() {
                    crate::digits::lemma_dec_value_nonneg(line);
                    lemma_decode_seq_bounds(b.skip(i + 2), dec_value(line) as nat);
                    lemma_decode_seq_well_formed(b.skip(i + 2), dec_value(line) as nat);
                    match spec_decode_seq(b.skip(i + 2), dec_value(line) as nat) {
                        DecodingSeq::Done(items, _) => {
                            assert(items.len() == dec_value(line));
                            assert(FrameModel::Array(items).well_formed());
                        },
                        DecodingSeq::Partial => {},
                        DecodingSeq::Bad => {},
                    }
                }
            },
        }
    }
}

pub proof fn lemma_decode_seq_well_formed(b: Seq<u8>, n: nat)
    ensures
        spec_decode_seq(b, n) matches DecodingSeq::Done(items, _)
            ==> crate::frame::all_well_formed(items),
    decreases b.len(), n,
{
    if n == 0 {
        assert(crate::frame::all_well_formed(Seq::<FrameModel>::empty()));
    } else {
        lemma_decode_well_formed(b);
        match spec_decode(b) {
            Decoding::Done(f, used) => {
                if 1 <= used && used <= b.len() {
                    lemma_decode_seq_well_formed(b.skip(used), (n - 1) as nat);
                    match spec_decode_seq(b.skip(used), (n - 1) as nat) {
                        DecodingSeq::Done(items, _) => {
                            assert((seq![f] + items)[0] == f);
                            assert((seq![f] + items).skip(1) =~= items);
                        },
                        DecodingSeq::Partial => {},
                        DecodingSeq::Bad => {},
                    }
                }
            },
            Decoding::Partial => {},
            Decoding::Bad => {},
        }
    }
}

pub open spec fn crlf() -> Seq<u8> {
    seq![CR, LF]
}

/// Encode one frame: the exact bytes the wire carries for it.
pub open spec fn spec_encode(m: FrameModel) -> Seq<u8>
    decreases m,
{
    match m {
        FrameModel::Simple(s) => seq![TAG_SIMPLE] + s + crlf(),
        FrameModel::Error(s) => seq![TAG_ERROR] + s + crlf(),
        FrameModel::Integer(v) => seq![TAG_INTEGER] + int_digits(v) + crlf(),
        FrameModel::Null => seq![TAG_BULK, 45u8, 49u8, CR, LF],
        FrameModel::Bulk(p) => seq![TAG_BULK] + dec_digits(p.len()) + crlf() + p + crlf(),
        FrameModel::Array(items) => seq![TAG_ARRAY] + dec_digits(items.len()) + crlf()
            + spec_encode_seq(items),
    }
}

/// Encode a sequence of frames back to back.
pub open spec fn spec_encode_seq(items: Seq<FrameModel>) -> Seq<u8>
    decreases items,
{
    if items.len() == 0 {
        Seq::empty()
    } else {
        spec_encode(items[0]) + spec_encode_seq(items.skip(1))
    }
}

/// A buffer that opens with a delimiter-free line closed by CR-LF has its
/// first CR-LF pair exactly at the line's close.
proof fn lemma_header_line(b: Seq<u8>, line: Seq<u8>)
    requires
        b.len() >= 3 + line.len(),
        crlf_free(line),
        forall|j: int| 0 <= j < line.len() ==> b[1 + j] == #[trigger] line[j],
        b[1 + line.len() as int] == CR,
        b[2 + line.len() as int] == LF,
    ensures
        find_crlf(b, 1) == Some(1 + line.len() as int),
        b.subrange(1, 1 + line.len() as int) == line,
{
    let i = 1 + line.len() as int;
    assert forall|j: int| #![trigger b[j]] 1 <= j < i implies !(b[j] == CR && b[j + 1]
        == LF) by {
        if j + 1 < i {
            assert(b[j] == line[j - 1]);
            assert(b[j + 1] == line[j]);
        } else {
            assert(b[j + 1] == CR);
        }
    }
    lemma_find_crlf_found(b, 1, i);
    assert(b.subrange(1, i) =~= line);
}

proof fn lemma_de_simple(s: Seq<u8>, rest: Seq<u8>, tag: u8)
    requires
        crlf_free(s),
        is_utf8(s),
        tag == TAG_SIMPLE || tag == TAG_ERROR,
    ensures
        ({
            let m = if tag == TAG_SIMPLE {
                FrameModel::Simple(s)
            } else {
                FrameModel::Error(s)
            };
            spec_decode(spec_encode(m) + rest) == Decoding::Done(m, spec_encode(m).len() as int)
        }),
{
    let m = if tag == TAG_SIMPLE {
        FrameModel::Simple(s)
    } else {
        FrameModel::Error(s)
    };
    let e = spec_encode(m);
    let b = e + rest;
    let ln = s.len() as int;
    assert(b[0] == tag);
    assert(forall|j: int| 0 <= j < ln ==> b[1 + j] == #[trigger] s[j]);
    assert(b[1 + ln] == CR);
    assert(b[2 + ln] == LF);
    lemma_header_line(b, s);
}

proof fn lemma_de_integer(v: i64, rest: Seq<u8>)
    ensures
        spec_decode(spec_encode(FrameModel::Integer(v)) + rest) == Decoding::Done(
            FrameModel::Integer(v),
            spec_encode(FrameModel::Integer(v)).len() as int,
        ),
{
    let e = spec_encode(FrameModel::Integer(v));
    let b = e + rest;
    crate::digits::lemma_int_digits_value(v);
    let line = int_digits(v);
    let ln = line.len() as int;
    assert forall|j: int| #![trigger line[j]] 0 <= j && j + 1 < ln implies !(line[j] == CR
        && line[j + 1] == LF) by {
        assert(line[j] == 45 || is_digit(line[j]));
    }
    assert(b[0] == TAG_INTEGER);
    assert(forall|j: int| 0 <= j < ln ==> b[1 + j] == #[trigger] line[j]);
    assert(b[1 + ln] == CR);
    assert(b[2 + ln] == LF);
    lemma_header_line(b, line);
    assert(int_line_value(b.subrange(1, 1 + ln)) == Some(v));
}

proof fn lemma_de_null(rest: Seq<u8>)
    ensures
        spec_decode(spec_encode(FrameModel::Null) + rest) == Decoding::Done(FrameModel::Null, 5),
{
    let e = spec_encode(FrameModel::Null);
    let b = e + rest;
    let line = seq![45u8, 49u8];
    assert(b[0] == TAG_BULK);
    assert(b[1] == 45u8 && b[2] == 49u8 && b[3] == CR && b[4] == LF);
    assert(forall|j: int| 0 <= j < 2 ==> b[1 + j] == #[trigger] line[j]);
    assert(crlf_free(line));
    lemma_header_line(b, line);
    assert(e.len() == 5);
}

proof fn lemma_de_bulk(p: Seq<u8>, rest: Seq<u8>)
    requires
        p.len() <= u64::MAX,
    ensures
        spec_decode(spec_encode(FrameModel::Bulk(p)) + rest) == Decoding::Done(
            FrameModel::Bulk(p),
            spec_encode(FrameModel::Bulk(p)).len() as int,
        ),
{
    let e = spec_encode(FrameModel::Bulk(p));
    let b = e + rest;
    crate::digits::lemma_dec_digits_value(p.len());
    let line = dec_digits(p.len());
    let ln = line.len() as int;
    let n = p.len() as int;
    assert forall|j: int| #![trigger line[j]] 0 <= j && j + 1 < ln implies !(line[j] == CR
        && line[j + 1] == LF) by {
        assert(is_digit(line[j]));
    }
    assert(b[0] == TAG_BULK);
    assert(forall|j: int| 0 <= j < ln ==> b[1 + j] == #[trigger] line[j]);
    assert(b[1 + ln] == CR);
    assert(b[2 + ln] == LF);
    lemma_header_line(b, line);
    let i = 1 + ln;
    assert(line != seq![45u8, 49u8]) by {
        assert(is_digit(line[0]));
    }
    assert(dec_value(line) == n);
    assert(e.len() == i + 2 + n + 2);
    assert(b[i + 2 + n] == CR);
    assert(b[i + 2 + n + 1] == LF);
    assert(b.subrange(i + 2, i + 2 + n) =~= p);
}

/// Round trip with a suffix: the encoding of a well-formed frame, followed
/// by any further bytes, decodes to exactly that frame, consuming exactly
/// the encoding.
pub proof fn lemma_decode_encode(m: FrameModel, rest: Seq<u8>)
    requires
        m.well_formed(),
    ensures
        spec_decode(spec_encode(m) + rest) == Decoding::Done(m, spec_encode(m).len() as int),
    decreases m,
{
    let e = spec_encode(m);
    let b = e + rest;
    match m {
        FrameModel::Simple(s) => {
            lemma_de_simple(s, rest, TAG_SIMPLE);
        },
        FrameModel::Error(s) => {
            lemma_de_simple(s, rest, TAG_ERROR);
        },
        FrameModel::Integer(v) => {
            lemma_de_integer(v, rest);
        },
        FrameModel::Null => {
            lemma_de_null(rest);
        },
        FrameModel::Bulk(p) => {
            lemma_de_bulk(p, rest);
        },
        FrameModel::Array(items) => {
            crate::digits::lemma_dec_digits_value(items.len());
            let line = dec_digits(items.len());
            let ln = line.len() as int;
            assert forall|j: int| #![trigger line[j]] 0 <= j && j + 1 < ln implies !(line[j]
                == CR && line[j + 1] == LF) by {
                assert(is_digit(line[j]));
            }
            assert(b[0] == TAG_ARRAY);
            assert(forall|j: int| 0 <= j < ln ==> b[1 + j] == #[trigger] line[j]);
            assert(b[1 + ln] == CR);
            assert(b[2 + ln] == LF);
            lemma_header_line(b, line);
            let i = 1 + ln;
            assert(line != seq![45u8, 49u8]) by {
                assert(is_digit(line[0]));
            }
            assert(dec_value(line) == items.len());
            let tail = spec_encode_seq(items);
            assert(b.skip(i + 2) =~= tail + rest);
            lemma_decode_encode_seq(items, rest);
            assert(e.len() == i + 2 + tail.len());
        },
    }
}

/// Round trip with a suffix for a run of frames encoded back to back.
pub proof fn lemma_decode_encode_seq(items: Seq<FrameModel>, rest: Seq<u8>)
    requires
        crate::frame::all_well_formed(items),
    ensures
        spec_decode_seq(spec_encode_seq(items) + rest, items.len()) == DecodingSeq::Done(
            items,
            spec_encode_seq(items).len() as int,
        ),
    decreases items,
{
    let b = spec_encode_seq(items) + rest;
    if items.len() == 0 {
        assert(items =~= Seq::<FrameModel>::empty());
        assert(spec_decode_seq(b, 0) == DecodingSeq::Done(Seq::<FrameModel>::empty(), 0));
    } else {
        let e0 = spec_encode(items[0]);
        let tail = spec_encode_seq(items.skip(1));
        assert(b =~= e0 + (tail + rest));
        lemma_decode_encode(items[0], tail + rest);
        lemma_decode_bounds(b);
        assert(b.skip(e0.len() as int) =~= tail + rest);
        lemma_decode_encode_seq(items.skip(1), rest);
        assert(seq![items[0]] + items.skip(1) =~= items);
        assert(spec_encode_seq(items).len() == e0.len() + tail.len());
    }
}

/// A CR-LF search in a suffix mirrors the search in the whole buffer.
proof fn lemma_find_crlf_shift(b: Seq<u8>, d: int, j: int)
    requires
        0 <= d <= b.len(),
        0 <= j,
    ensures
        find_crlf(b, d + j) == match find_crlf(b.skip(d), j) {
            Some(i) => Some(i + d),
            None => None::<int>,
        },
    decreases b.len() - d - j,
{
    let s = b.skip(d);
    if j + 2 > s.len() {
    } else if s[j] == CR && s[j + 1] == LF {
    } else {
        lemma_find_crlf_shift(b, d, j + 1);
    }
}

/// Finds the first CR-LF pair at or after `start`.
fn find_crlf_from(buf: &Vec<u8>, start: usize) -> (r: Option<usize>)
    ensures
        match r {
            Some(i) => find_crlf(buf@, start as int) == Some(i as int) && start <= i && i + 2
                <= buf.len(),
            None => find_crlf(buf@, start as int) is None,
        },
{
    if buf.len() < 2 || start > buf.len() - 2 {
        proof {
            if start <= buf.len() {
                lemma_find_crlf_none(buf@, start as int);
            }
        }
        return None;
    }
    let mut j: usize = start;
    while j <= buf.len() - 2
        invariant
            buf.len() >= 2,
            start <= j <= buf.len() - 1,
            forall|k: int| #![trigger buf@[k]] start <= k < j ==> !(buf@[k] == CR && buf@[k
                + 1] == LF),
        decreases buf.len() - j,
    {
        if buf[j] == CR && buf[j + 1] == LF {
            proof {
                lemma_find_crlf_found(buf@, start as int, j as int);
            }
            return Some(j);
        }
        j = j + 1;
    }
    proof {
        lemma_find_crlf_none(buf@, start as int);
    }
    None
}

/// Copies `buf[start..end]` out of the buffer.
pub(crate) fn copy_range(buf: &Vec<u8>, start: usize, end: usize) -> (r: Vec<u8>)
    requires
        start <= end <= buf.len(),
    ensures
        r@ == buf@.subrange(start as int, end as int),
{
    let mut out: Vec<u8> = Vec::new();
    let mut j: usize = start;
    proof {
        assert(out@ =~= buf@.subrange(start as int, start as int));
    }
    while j < end
        invariant
            start <= j <= end <= buf.len(),
            out@ == buf@.subrange(start as int, j as int),
        decreases end - j,
    {
        out.push(buf[j]);
        proof {
            assert(out@ =~= buf@.subrange(start as int, j + 1));
        }
        j = j + 1;
    }
    out
}

/// A copy of `src`.
pub(crate) fn clone_bytes(src: &Vec<u8>) -> (r: Vec<u8>)
    ensures
        r@ == src@,
{
    let r = copy_range(src, 0, src.len());
    proof {
        assert(r@ =~= src@);
    }
    r
}

/// Appends a copy of `src` to `out`.
pub(crate) fn push_bytes(out: &mut Vec<u8>, src: &Vec<u8>)
    ensures
        final(out)@ == old(out)@ + src@,
{
    let mut j: usize = 0;
    proof {
        assert(out@ =~= old(out)@ + src@.subrange(0, 0));
    }
    while j < src.len()
        invariant
            j <= src.len(),
            out@ == old(out)@ + src@.subrange(0, j as int),
        decreases src.len() - j,
    {
        out.push(src[j]);
        proof {
            assert(out@ =~= old(out)@ + src@.subrange(0, j + 1));
        }
        j = j + 1;
    }
    proof {
        assert(src@.subrange(0, src.len() as int) =~= src@);
    }
}

/// Appends the encoding of `f` to `out`.
fn push_frame(out: &mut Vec<u8>, f: &Frame)
    ensures
        final(out)@ == old(out)@ + spec_encode(f@),
    decreases f,
{
    match f {
        Frame::Simple(s) => {
            out.push(TAG_SIMPLE);
            push_bytes(out, s);
            out.push(CR);
            out.push(LF);
            proof {
                assert(out@ =~= old(out)@ + spec_encode(f@));
            }
        },
        Frame::Error(s) => {
            out.push(TAG_ERROR);
            push_bytes(out, s);
            out.push(CR);
            out.push(LF);
            proof {
                assert(out@ =~= old(out)@ + spec_encode(f@));
            }
        },
        Frame::Integer(v) => {
            out.push(TAG_INTEGER);
            crate::digits::push_int_decimal(out, *v);
            out.push(CR);
            out.push(LF);
            proof {
                assert(out@ =~= old(out)@ + spec_encode(f@));
            }
        },
        Frame::Null => {
            out.push(TAG_BULK);
            out.push(45);
            out.push(49);
            out.push(CR);
            out.push(LF);
            proof {
                assert(out@ =~= old(out)@ + spec_encode(f@));
            }
        },
        Frame::Bulk(p) => {
            out.push(TAG_BULK);
            crate::digits::push_decimal(out, p.len() as u64);
            out.push(CR);
            out.push(LF);
            push_bytes(out, p);
            out.push(CR);
            out.push(LF);
            proof {
                assert(out@ =~= old(out)@ + spec_encode(f@));
            }
        },
        Frame::Array(items) => {
            let ghost vs = Frame::view_seq(items@);
            proof {
                crate::frame::lemma_view_seq(items@);
            }
            out.push(TAG_ARRAY);
            crate::digits::push_decimal(out, items.len() as u64);
            out.push(CR);
            out.push(LF);
            let ghost base = out@;
            proof {
                assert(vs.skip(0) =~= vs);
            }
            let mut j: usize = 0;
            while j < items.len()
                invariant
                    *f == Frame::Array(*items),
                    j <= items.len(),
                    vs == Frame::view_seq(items@),
                    vs.len() == items@.len(),
                    forall|i: int| 0 <= i < items@.len() ==> vs[i] == items@[i].view(),
                    out@ + spec_encode_seq(vs.skip(j as int)) == base + spec_encode_seq(vs),
                decreases items.len() - j,
            {
                proof {
                    assert(decreases_to!(*f => f->Array_0));
                    assert(f->Array_0 == *items);
                    assert(decreases_to!(*items => items@));
                    assert(decreases_to!(items@ => items@[j as int]));
                }
                push_frame(out, &items[j]);
                proof {
                    assert(vs.skip(j as int)[0] == vs[j as int]);
                    assert(vs.skip(j as int).skip(1) =~= vs.skip(j + 1));
                    assert(spec_encode_seq(vs.skip(j as int)) == spec_encode(vs[j as int])
                        + spec_encode_seq(vs.skip(j + 1)));
                    assert(out@ + spec_encode_seq(vs.skip(j + 1)) =~= base + spec_encode_seq(
                        vs,
                    ));
                }
                j = j + 1;
            }
            proof {
                assert(vs.skip(items@.len() as int) =~= Seq::<FrameModel>::empty());
                assert(out@ + Seq::<u8>::empty() =~= out@);
                assert(out@ =~= old(out)@ + spec_encode(f@));
            }
        },
    }
}

/// Encode one frame to its wire bytes.
pub fn encode_frame(f: &Frame) -> (r: Vec<u8>)
    ensures
        r@ == spec_encode(f@),
{
    let mut out: Vec<u8> = Vec::new();
    push_frame(&mut out, f);
    proof {
        assert(Seq::<u8>::empty() + spec_encode(f@) =~= spec_encode(f@));
    }
    out
}

/// Outcome of the check pass over a buffer.
pub enum FrameCheck {
    Complete(usize),
    Incomplete,
    Malformed,
}

/// Check pass: walks the bytes from `pos` and reports whether one complete,
/// well-formed frame is present, and where it ends, without materializing
/// it. `Incomplete` is the steady-state "read more" signal, not an error.
pub fn check_at(buf: &Vec<u8>, pos: usize) -> (r: FrameCheck)
    requires
        pos <= buf.len(),
    ensures
        ({
            let d = spec_decode(buf@.skip(pos as int));
            match r {
                FrameCheck::Complete(end) => pos < end <= buf.len() && (d
                    matches Decoding::Done(_, used) && used == end - pos),
                FrameCheck::Incomplete => d is Partial,
                FrameCheck::Malformed => d is Bad,
            }
        }),
    decreases buf.len() - pos,
{
    let ghost s = buf@.skip(pos as int);
    if pos == buf.len() {
        proof {
            assert(s.len() == 0);
        }
        return FrameCheck::Incomplete;
    }
    let tag = buf[pos];
    proof {
        assert(s[0] == tag);
    }
    if tag == TAG_SIMPLE || tag == TAG_ERROR || tag == TAG_INTEGER {
        let fr = find_crlf_from(buf, pos + 1);
        proof {
            lemma_find_crlf_shift(buf@, pos as int, 1);
        }
        match fr {
            None => FrameCheck::Incomplete,
            Some(i) => {
                let ghost i_rel = i as int - pos as int;
                proof {
                    assert(find_crlf(s, 1) == Some(i_rel));
                    assert(buf@.subrange(pos + 1, i as int) =~= s.subrange(1, i_rel));
                }
                if tag == TAG_INTEGER {
                    match crate::digits::parse_int_line(buf, pos + 1, i) {
                        Some(_) => FrameCheck::Complete(i + 2),
                        None => FrameCheck::Malformed,
                    }
                } else {
                    if crate::utf8::validate_utf8(buf, pos + 1, i) {
                        FrameCheck::Complete(i + 2)
                    } else {
                        FrameCheck::Malformed
                    }
                }
            },
        }
    } else if tag == TAG_BULK {
        let fr = find_crlf_from(buf, pos + 1);
        proof {
            lemma_find_crlf_shift(buf@, pos as int, 1);
        }
        match fr {
            None => FrameCheck::Incomplete,
            Some(i) => {
                let ghost i_rel = i as int - pos as int;
                let ghost line = s.subrange(1, i_rel);
                proof {
                    assert(find_crlf(s, 1) == Some(i_rel));
                    assert(buf@.subrange(pos + 1, i as int) =~= line);
                }
                if i - pos == 3 && buf[pos + 1] == 45 && buf[pos + 2] == 49 {
                    proof {
                        assert(line =~= seq![45u8, 49u8]);
                    }
                    FrameCheck::Complete(i + 2)
                } else {
                    proof {
                        if line == seq![45u8, 49u8] {
                            assert(line.len() == 2);
                            assert(buf@[pos + 1] == line[0]);
                            assert(buf@[pos + 2] == line[1]);
                            assert(false);
                        }
                    }
                    match crate::digits::parse_decimal(buf, pos + 1, i) {
                        None => FrameCheck::Malformed,
                        Some(n) => {
                            let after = buf.len() - (i + 2);
                            if (after as u128) < (n as u128) + 2 {
                                proof {
                                    assert(s.len() < i_rel + 2 + n + 2);
                                }
                                FrameCheck::Incomplete
                            } else {
                                let bend = i + 2 + (n as usize);
                                if buf[bend] == CR && buf[bend + 1] == LF {
                                    proof {
                                        assert(s[i_rel + 2 + n] == buf@[bend as int]);
                                        assert(s[i_rel + 2 + n + 1] == buf@[bend + 1]);
                                    }
                                    FrameCheck::Complete(bend + 2)
                                } else {
                                    proof {
                                        assert(s[i_rel + 2 + n] == buf@[bend as int]);
                                        assert(s[i_rel + 2 + n + 1] == buf@[bend + 1]);
                                    }
                                    FrameCheck::Malformed
                                }
                            }
                        },
                    }
                }
            },
        }
    } else if tag == TAG_ARRAY {
        let fr = find_crlf_from(buf, pos + 1);
        proof {
            lemma_find_crlf_shift(buf@, pos as int, 1);
        }
        match fr {
            None => FrameCheck::Incomplete,
            Some(i) => {
                let ghost i_rel = i as int - pos as int;
                let ghost line = s.subrange(1, i_rel);
                proof {
                    assert(find_crlf(s, 1) == Some(i_rel));
                    assert(buf@.subrange(pos + 1, i as int) =~= line);
                }
                match crate::digits::parse_decimal(buf, pos + 1, i) {
                    None => FrameCheck::Malformed,
                    Some(n) => {
                        let body_start = i + 2;
                        let ghost body = buf@.skip(body_start as int);
                        proof {
                            assert(1 <= i_rel && i_rel + 2 <= s.len());
                            assert(s.skip(i_rel + 2) =~= body);
                        }
                        let mut cur: usize = body_start;
                        let mut k: u64 = 0;
                        while k < n
                            invariant
                                pos <= buf.len(),
                                s == buf@.skip(pos as int),
                                body == buf@.skip(body_start as int),
                                pos < body_start <= cur <= buf.len(),
                                k <= n,
                                i_rel == i as int - pos as int,
                                ({
                                    match spec_decode_seq(body, n as nat) {
                                        DecodingSeq::Done(ms, u) => spec_decode(s)
                                            == Decoding::Done(
                                            FrameModel::Array(ms),
                                            i_rel + 2 + u,
                                        ),
                                        DecodingSeq::Partial => spec_decode(s) is Partial,
                                        DecodingSeq::Bad => spec_decode(s) is Bad,
                                    }
                                }),
                                ({
                                    match spec_decode_seq(
                                        buf@.skip(cur as int),
                                        (n - k) as nat,
                                    ) {
                                        DecodingSeq::Done(ms2, u2) => spec_decode_seq(
                                            body,
                                            n as nat,
                                        ) matches DecodingSeq::Done(ms, u) && body_start + u
                                            == cur + u2,
                                        DecodingSeq::Partial => spec_decode_seq(body, n as nat)
                                            is Partial,
                                        DecodingSeq::Bad => spec_decode_seq(body, n as nat)
                                            is Bad,
                                    }
                                }),
                            decreases n - k,
                        {
                            let sub = check_at(buf, cur);
                            match sub {
                                FrameCheck::Complete(end) => {
                                    proof {
                                        let t = buf@.skip(cur as int);
                                        assert(t.skip(end - cur) =~= buf@.skip(end as int));
                                    }
                                    cur = end;
                                    k = k + 1;
                                },
                                FrameCheck::Incomplete => {
                                    return FrameCheck::Incomplete;
                                },
                                FrameCheck::Malformed => {
                                    return FrameCheck::Malformed;
                                },
                            }
                        }
                        proof {
                            assert(spec_decode_seq(buf@.skip(cur as int), 0nat)
                                == DecodingSeq::Done(Seq::<FrameModel>::empty(), 0));
                        }
                        FrameCheck::Complete(cur)
                    },
                }
            },
        }
    } else {
        FrameCheck::Malformed
    }
}

/// Parse pass: re-walks a span the check pass confirmed complete and
/// materializes the frame, returning it with the position just past it.
pub fn parse_at(buf: &Vec<u8>, pos: usize) -> (r: (Frame, usize))
    requires
        pos <= buf.len(),
        spec_decode(buf@.skip(pos as int)) is Done,
    ensures
        ({
            let d = spec_decode(buf@.skip(pos as int));
            d matches Decoding::Done(m, used) && r.0@ == m && pos + used == r.1 && pos < r.1
                <= buf.len()
        }),
    decreases buf.len() - pos,
{
    let ghost s = buf@.skip(pos as int);
    proof {
        lemma_decode_bounds(s);
    }
    if pos == buf.len() {
        proof {
            assert(s.len() == 0);
            assert(false);
        }
        return (Frame::Null, 0);
    }
    let tag = buf[pos];
    proof {
        assert(s[0] == tag);
    }
    if tag == TAG_SIMPLE || tag == TAG_ERROR || tag == TAG_INTEGER {
        let fr = find_crlf_from(buf, pos + 1);
        proof {
            lemma_find_crlf_shift(buf@, pos as int, 1);
        }
        match fr {
            None => {
                proof {
                    assert(false);
                }
                (Frame::Null, 0)
            },
            Some(i) => {
                let ghost i_rel = i as int - pos as int;
                proof {
                    assert(find_crlf(s, 1) == Some(i_rel));
                    assert(buf@.subrange(pos + 1, i as int) =~= s.subrange(1, i_rel));
                }
                if tag == TAG_INTEGER {
                    match crate::digits::parse_int_line(buf, pos + 1, i) {
                        Some(v) => (Frame::Integer(v), i + 2),
                        None => {
                            proof {
                                assert(false);
                            }
                            (Frame::Null, 0)
                        },
                    }
                } else {
                    let text = copy_range(buf, pos + 1, i);
                    if tag == TAG_SIMPLE {
                        (Frame::Simple(text), i + 2)
                    } else {
                        (Frame::Error(text), i + 2)
                    }
                }
            },
        }
    } else if tag == TAG_BULK {
        let fr = find_crlf_from(buf, pos + 1);
        proof {
            lemma_find_crlf_shift(buf@, pos as int, 1);
        }
        match fr {
            None => {
                proof {
                    assert(false);
                }
                (Frame::Null, 0)
            },
            Some(i) => {
                let ghost i_rel = i as int - pos as int;
                let ghost line = s.subrange(1, i_rel);
                proof {
                    assert(find_crlf(s, 1) == Some(i_rel));
                    assert(buf@.subrange(pos + 1, i as int) =~= line);
                }
                if i - pos == 3 && buf[pos + 1] == 45 && buf[pos + 2] == 49 {
                    proof {
                        assert(line =~= seq![45u8, 49u8]);
                    }
                    (Frame::Null, i + 2)
                } else {
                    proof {
                        if line == seq![45u8, 49u8] {
                            assert(line.len() == 2);
                            assert(buf@[pos + 1] == line[0]);
                            assert(buf@[pos + 2] == line[1]);
                            assert(false);
                        }
                    }
                    match crate::digits::parse_decimal(buf, pos + 1, i) {
                        None => {
                            proof {
                                assert(false);
                            }
                            (Frame::Null, 0)
                        },
                        Some(n) => {
                            let after = buf.len() - (i + 2);
                            if (after as u128) < (n as u128) + 2 {
                                proof {
                                    assert(s.len() < i_rel + 2 + n + 2);
                                    assert(false);
                                }
                                (Frame::Null, 0)
                            } else {
                                let bend = i + 2 + (n as usize);
                                let payload = copy_range(buf, i + 2, bend);
                                proof {
                                    assert(payload@ =~= s.subrange(i_rel + 2, i_rel + 2 + n));
                                }
                                (Frame::Bulk(payload), bend + 2)
                            }
                        },
                    }
                }
            },
        }
    } else if tag == TAG_ARRAY {
        let fr = find_crlf_from(buf, pos + 1);
        proof {
            lemma_find_crlf_shift(buf@, pos as int, 1);
        }
        match fr {
            None => {
                proof {
                    assert(false);
                }
                (Frame::Null, 0)
            },
            Some(i) => {
                let ghost i_rel = i as int - pos as int;
                let ghost line = s.subrange(1, i_rel);
                proof {
                    assert(find_crlf(s, 1) == Some(i_rel));
                    assert(buf@.subrange(pos + 1, i as int) =~= line);
                }
                match crate::digits::parse_decimal(buf, pos + 1, i) {
                    None => {
                        proof {
                            assert(false);
                        }
                        (Frame::Null, 0)
                    },
                    Some(n) => {
                        let body_start = i + 2;
                        let ghost body = buf@.skip(body_start as int);
                        proof {
                            assert(1 <= i_rel && i_rel + 2 <= s.len());
                            assert(s.skip(i_rel + 2) =~= body);
                        }
                        let ghost (ms, u): (Seq<FrameModel>, int) = match spec_decode_seq(
                            body,
                            n as nat,
                        ) {
                            DecodingSeq::Done(ms, u) => (ms, u),
                            _ => (Seq::empty(), 0),
                        };
                        proof {
                            assert(spec_decode_seq(body, n as nat) == DecodingSeq::Done(ms, u));
                            lemma_decode_seq_bounds(body, n as nat);
                            assert(ms.skip(0) =~= ms);
                            assert(Frame::view_seq(Seq::<Frame>::empty())
                                == Seq::<FrameModel>::empty());
                            assert(ms.take(0) =~= Seq::<FrameModel>::empty());
                        }
                        let mut acc: Vec<Frame> = Vec::new();
                        let mut cur: usize = body_start;
                        let mut k: u64 = 0;
                        while k < n
                            invariant
                                pos <= buf.len(),
                                s == buf@.skip(pos as int),
                                body == buf@.skip(body_start as int),
                                pos < body_start <= cur <= buf.len(),
                                k <= n,
                                ms.len() == n,
                                i_rel == i as int - pos as int,
                                spec_decode(s) == Decoding::Done(
                                    FrameModel::Array(ms),
                                    i_rel + 2 + u,
                                ),
                                spec_decode_seq(body, n as nat) == DecodingSeq::Done(ms, u),
                                spec_decode_seq(buf@.skip(cur as int), (n - k) as nat)
                                    == DecodingSeq::Done(ms.skip(k as int), u + body_start
                                    - cur),
                                Frame::view_seq(acc@) == ms.take(k as int),
                                acc@.len() == k,
                            decreases n - k,
                        {
                            proof {
                                let t = buf@.skip(cur as int);
                                let tl = ms.skip(k as int);
                                assert(tl.len() > 0);
                                assert(tl[0] == ms[k as int]);
                            }
                            let (fr2, end) = parse_at(buf, cur);
                            proof {
                                let t = buf@.skip(cur as int);
                                let m_cnt = (n - k) as nat;
                                assert(t.skip(end - cur) =~= buf@.skip(end as int));
                                assert(spec_decode(t) == Decoding::Done(fr2@, end - cur));
                                match spec_decode_seq(buf@.skip(end as int), (m_cnt
                                    - 1) as nat) {
                                    DecodingSeq::Done(items2, u2) => {
                                        assert(spec_decode_seq(t, m_cnt) == DecodingSeq::Done(
                                            seq![fr2@] + items2,
                                            (end - cur) + u2,
                                        ));
                                        assert(seq![fr2@] + items2 == ms.skip(k as int));
                                        assert((seq![fr2@] + items2).skip(1) =~= items2);
                                        assert(ms.skip(k as int).skip(1) =~= ms.skip(k + 1));
                                        assert(fr2@ == ms[k as int]) by {
                                            assert((seq![fr2@] + items2)[0] == fr2@);
                                            assert(ms.skip(k as int)[0] == ms[k as int]);
                                        }
                                    },
                                    DecodingSeq::Partial => {
                                        assert(spec_decode_seq(t, m_cnt) is Partial);
                                        assert(false);
                                    },
                                    DecodingSeq::Bad => {
                                        assert(spec_decode_seq(t, m_cnt) is Bad);
                                        assert(false);
                                    },
                                }
                                crate::frame::lemma_view_seq_push(acc@, fr2);
                                assert(ms.take(k as int).push(ms[k as int]) =~= ms.take(k + 1));
                            }
                            acc.push(fr2);
                            cur = end;
                            k = k + 1;
                        }
                        proof {
                            assert(spec_decode_seq(buf@.skip(cur as int), 0nat)
                                == DecodingSeq::Done(Seq::<FrameModel>::empty(), 0));
                            assert(u + body_start - cur == 0);
                            assert(ms.take(n as int) =~= ms);
                        }
                        (Frame::Array(acc), cur)
                    },
                }
            },
        }
    } else {
        proof {
            assert(false);
        }
        (Frame::Null, 0)
    }
}

/// Round trip: the encoding of a well-formed frame decodes back to that
/// frame, consuming the whole buffer.
pub proof fn lemma_round_trip(m: FrameModel)
    requires
        m.well_formed(),
    ensures
        spec_decode(spec_encode(m)) == Decoding::Done(m, spec_encode(m).len() as int),
{
    lemma_decode_encode(m, Seq::empty());
    assert(spec_encode(m) + Seq::<u8>::empty() =~= spec_encode(m));
}

/// A strict prefix of a line-headed encoding that ends before the line's
/// CR-LF holds no CR-LF pair at all.
proof fn lemma_prefix_header_none(e: Seq<u8>, line: Seq<u8>, k: int)
    requires
        e.len() >= 3 + line.len(),
        crlf_free(line),
        forall|j: int| 0 <= j < line.len() ==> e[1 + j] == #[trigger] line[j],
        e[1 + line.len() as int] == CR,
        1 <= k <= 2 + line.len(),
    ensures
        find_crlf(e.take(k), 1) == None::<int>,
{
    let b = e.take(k);
    assert forall|j: int| #![trigger b[j]] 1 <= j && j + 2 <= k implies !(b[j] == CR && b[j
        + 1] == LF) by {
        if j + 1 <= line.len() {
            assert(b[j] == line[j - 1]);
            assert(b[j + 1] == line[j]);
        } else {
            assert(b[j + 1] == e[j + 1]);
            assert(e[1 + line.len() as int] == CR);
        }
    }
    lemma_find_crlf_none(b, 1);
}

proof fn lemma_prefix_partial_bulk(p: Seq<u8>, k: int)
    requires
        p.len() <= u64::MAX,
        0 <= k < spec_encode(FrameModel::Bulk(p)).len(),
    ensures
        spec_decode(spec_encode(FrameModel::Bulk(p)).take(k)) is Partial,
{
    let e = spec_encode(FrameModel::Bulk(p));
    let b = e.take(k);
    if k == 0 {
    } else {
        crate::digits::lemma_dec_digits_value(p.len());
        let line = dec_digits(p.len());
        let ln = line.len() as int;
        let n = p.len() as int;
        assert forall|j: int| #![trigger line[j]] 0 <= j && j + 1 < ln implies !(line[j] == CR
            && line[j + 1] == LF) by {
            assert(is_digit(line[j]));
        }
        assert(b[0] == TAG_BULK);
        if k <= 2 + ln {
            lemma_prefix_header_none(e, line, k);
        } else {
            assert(forall|j: int| 0 <= j < ln ==> b[1 + j] == #[trigger] line[j]);
            assert(b[1 + ln] == CR);
            assert(b[2 + ln] == LF);
            lemma_header_line(b, line);
            let i = 1 + ln;
            assert(b.subrange(1, i) == line);
            assert(line != seq![45u8, 49u8]) by {
                assert(is_digit(line[0]));
            }
            assert(dec_value(line) == n);
            assert(e.len() == i + 2 + n + 2);
            assert(b.len() < i + 2 + n + 2);
        }
    }
}

/// Incremental feed, prefix half: every strict prefix of a well-formed
/// frame's encoding decodes to the "read more" signal — never to a frame,
/// never to an error.
pub proof fn lemma_prefix_partial(m: FrameModel, k: int)
    requires
        m.well_formed(),
        0 <= k < spec_encode(m).len(),
    ensures
        spec_decode(spec_encode(m).take(k)) is Partial,
    decreases m,
{
    let e = spec_encode(m);
    let b = e.take(k);
    match m {
        FrameModel::Simple(s) => {
            if k > 0 {
                assert(b[0] == TAG_SIMPLE);
                lemma_prefix_header_none(e, s, k);
            }
        },
        FrameModel::Error(s) => {
            if k > 0 {
                assert(b[0] == TAG_ERROR);
                lemma_prefix_header_none(e, s, k);
            }
        },
        FrameModel::Integer(v) => {
            if k > 0 {
                crate::digits::lemma_int_digits_value(v);
                let line = int_digits(v);
                assert forall|j: int| #![trigger line[j]] 0 <= j && j + 1 < line.len() implies !(
                line[j] == CR && line[j + 1] == LF) by {
                    assert(line[j] == 45 || is_digit(line[j]));
                }
                assert(b[0] == TAG_INTEGER);
                lemma_prefix_header_none(e, line, k);
            }
        },
        FrameModel::Null => {
            if k > 0 {
                let line = seq![45u8, 49u8];
                assert(b[0] == TAG_BULK);
                assert(crlf_free(line));
                assert(forall|j: int| 0 <= j < 2 ==> e[1 + j] == #[trigger] line[j]);
                lemma_prefix_header_none(e, line, k);
            }
        },
        FrameModel::Bulk(p) => {
            lemma_prefix_partial_bulk(p, k);
        },
        FrameModel::Array(items) => {
            if k == 0 {
            } else {
                crate::digits::lemma_dec_digits_value(items.len());
                let line = dec_digits(items.len());
                let ln = line.len() as int;
                assert forall|j: int| #![trigger line[j]] 0 <= j && j + 1 < ln implies !(line[j]
                    == CR && line[j + 1] == LF) by {
                    assert(is_digit(line[j]));
                }
                assert(b[0] == TAG_ARRAY);
                if k <= 2 + ln {
                    lemma_prefix_header_none(e, line, k);
                } else {
                    assert(forall|j: int| 0 <= j < ln ==> b[1 + j] == #[trigger] line[j]);
                    assert(b[1 + ln] == CR);
                    assert(b[2 + ln] == LF);
                    lemma_header_line(b, line);
                    let i = 1 + ln;
                    assert(b.subrange(1, i) == line);
                    assert(dec_value(line) == items.len());
                    let tail = spec_encode_seq(items);
                    let k2 = k - (i + 2);
                    assert(b.skip(i + 2) =~= tail.take(k2));
                    assert(e.len() == i + 2 + tail.len());
                    lemma_prefix_partial_seq(items, k2);
                }
            }
        },
    }
}

/// Incremental feed, prefix half, for a run of frames encoded back to back.
proof fn lemma_prefix_partial_seq(items: Seq<FrameModel>, k: int)
    requires
        crate::frame::all_well_formed(items),
        0 <= k < spec_encode_seq(items).len(),
    ensures
        spec_decode_seq(spec_encode_seq(items).take(k), items.len()) is Partial,
    decreases items,
{
    assert(items.len() > 0);
    let e0 = spec_encode(items[0]);
    let tail = spec_encode_seq(items.skip(1));
    let b = spec_encode_seq(items).take(k);
    assert(spec_encode_seq(items).len() == e0.len() + tail.len());
    if k < e0.len() {
        assert(b =~= e0.take(k));
        lemma_prefix_partial(items[0], k);
    } else {
        let k2 = k - e0.len() as int;
        assert(b =~= e0 + tail.take(k2));
        lemma_decode_encode(items[0], tail.take(k2));
        lemma_decode_bounds(b);
        assert(b.skip(e0.len() as int) =~= tail.take(k2));
        assert(0 <= k2 < tail.len());
        lemma_prefix_partial_seq(items.skip(1), k2);
        assert(items.skip(1).len() == items.len() - 1);
    }
}

/// Incremental feed: feeding a well-formed frame's encoding in chunks
/// yields "incomplete" for every prefix strictly shorter than the whole
/// encoding, and exactly the frame upon completion.
pub proof fn lemma_incremental_feed(m: FrameModel, k: int)
    requires
        m.well_formed(),
        0 <= k <= spec_encode(m).len(),
    ensures
        k < spec_encode(m).len() ==> spec_decode(spec_encode(m).take(k)) is Partial,
        k == spec_encode(m).len() ==> spec_decode(spec_encode(m).take(k)) == Decoding::Done(
            m,
            k,
        ),
{
    if k < spec_encode(m).len() {
        lemma_prefix_partial(m, k);
    } else {
        assert(spec_encode(m).take(k) =~= spec_encode(m));
        lemma_round_trip(m);
    }
}

/// Buffer discipline: with two frames' encodings concatenated, decoding
/// consumes exactly the first encoding, and what remains is exactly the
/// second.
pub proof fn lemma_buffer_discipline(m1: FrameModel, m2: FrameModel)
    requires
        m1.well_formed(),
        m2.well_formed(),
    ensures
        spec_decode(spec_encode(m1) + spec_encode(m2)) == Decoding::Done(
            m1,
            spec_encode(m1).len() as int,
        ),
        (spec_encode(m1) + spec_encode(m2)).skip(spec_encode(m1).len() as int) == spec_encode(
            m2,
        ),
{
    lemma_decode_encode(m1, spec_encode(m2));
    assert((spec_encode(m1) + spec_encode(m2)).skip(spec_encode(m1).len() as int)
        =~= spec_encode(m2));
}

} // verus!
