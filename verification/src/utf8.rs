//! UTF-8 validity of a byte sequence, as the wire grammar requires of text
//! lines: a specification by the shortest-form table of the encoding, and a
//! verified validator.

use vstd::prelude::*;

verus! {

/// A continuation byte `10xxxxxx`.
pub open spec fn is_cont(c: u8) -> bool {
    0x80 <= c && c < 0xC0
}

/// Length of the valid UTF-8 scalar encoding that starts `b`, or 0 when the
/// first bytes are not one (including when `b` ends inside one).
pub open spec fn utf8_step(b: Seq<u8>) -> int {
    if b.len() == 0 {
        0
    } else {
        let c = b[0];
        if c < 0x80 {
            1
        } else if 0xC2 <= c && c <= 0xDF {
            if b.len() >= 2 && is_cont(b[1]) { 2 } else { 0 }
        } else if c == 0xE0 {
            if b.len() >= 3 && 0xA0 <= b[1] && b[1] <= 0xBF && is_cont(b[2]) { 3 } else { 0 }
        } else if 0xE1 <= c && c <= 0xEC {
            if b.len() >= 3 && is_cont(b[1]) && is_cont(b[2]) { 3 } else { 0 }
        } else if c == 0xED {
            if b.len() >= 3 && 0x80 <= b[1] && b[1] <= 0x9F && is_cont(b[2]) { 3 } else { 0 }
        } else if 0xEE <= c && c <= 0xEF {
            if b.len() >= 3 && is_cont(b[1]) && is_cont(b[2]) { 3 } else { 0 }
        } else if c == 0xF0 {
            if b.len() >= 4 && 0x90 <= b[1] && b[1] <= 0xBF && is_cont(b[2]) && is_cont(b[3]) {
                4
            } else {
                0
            }
        } else if 0xF1 <= c && c <= 0xF3 {
            if b.len() >= 4 && is_cont(b[1]) && is_cont(b[2]) && is_cont(b[3]) { 4 } else { 0 }
        } else if c == 0xF4 {
            if b.len() >= 4 && 0x80 <= b[1] && b[1] <= 0x8F && is_cont(b[2]) && is_cont(b[3]) {
                4
            } else {
                0
            }
        } else {
            0
        }
    }
}

/// `b` is a valid UTF-8 byte sequence.
pub open spec fn is_utf8(b: Seq<u8>) -> bool
    decreases b.len(),
{
    if b.len() == 0 {
        true
    } else {
        let l = utf8_step(b);
        if 1 <= l && l <= b.len() {
            is_utf8(b.skip(l))
        } else {
            false
        }
    }
}

/// Whether `buf[start..end]` is valid UTF-8.
pub fn validate_utf8(buf: &Vec<u8>, start: usize, end: usize) -> (r: bool)
    requires
        start <= end <= buf.len(),
    ensures
        r == is_utf8(buf@.subrange(start as int, end as int)),
{
    let ghost s = buf@.subrange(start as int, end as int);
    let mut i: usize = start;
    proof {
        assert(s.skip(0) =~= s);
    }
    while i < end
        invariant
            start <= i <= end <= buf.len(),
            s == buf@.subrange(start as int, end as int),
            is_utf8(s) == is_utf8(s.skip(i - start)),
        decreases end - i,
    {
        let ghost rest = s.skip(i - start);
        proof {
            assert forall|j: int| 0 <= j < rest.len() implies rest[j] == buf@[i + j] by {
                assert(rest[j] == s[i - start + j]);
            }
        }
        let c = buf[i];
        let step: usize = if c < 0x80 {
            1
        } else if 0xC2 <= c && c <= 0xDF {
            if end - i >= 2 && 0x80 <= buf[i + 1] && buf[i + 1] < 0xC0 { 2 } else { 0 }
        } else if c == 0xE0 {
            if end - i >= 3 && 0xA0 <= buf[i + 1] && buf[i + 1] <= 0xBF && 0x80 <= buf[i + 2]
                && buf[i + 2] < 0xC0 { 3 } else { 0 }
        } else if 0xE1 <= c && c <= 0xEC {
            if end - i >= 3 && 0x80 <= buf[i + 1] && buf[i + 1] < 0xC0 && 0x80 <= buf[i + 2]
                && buf[i + 2] < 0xC0 { 3 } else { 0 }
        } else if c == 0xED {
            if end - i >= 3 && 0x80 <= buf[i + 1] && buf[i + 1] <= 0x9F && 0x80 <= buf[i + 2]
                && buf[i + 2] < 0xC0 { 3 } else { 0 }
        } else if 0xEE <= c && c <= 0xEF {
            if end - i >= 3 && 0x80 <= buf[i + 1] && buf[i + 1] < 0xC0 && 0x80 <= buf[i + 2]
                && buf[i + 2] < 0xC0 { 3 } else { 0 }
        } else if c == 0xF0 {
            if end - i >= 4 && 0x90 <= buf[i + 1] && buf[i + 1] <= 0xBF && 0x80 <= buf[i + 2]
                && buf[i + 2] < 0xC0 && 0x80 <= buf[i + 3] && buf[i + 3] < 0xC0 { 4 } else { 0 }
        } else if 0xF1 <= c && c <= 0xF3 {
            if end - i >= 4 && 0x80 <= buf[i + 1] && buf[i + 1] < 0xC0 && 0x80 <= buf[i + 2]
                && buf[i + 2] < 0xC0 && 0x80 <= buf[i + 3] && buf[i + 3] < 0xC0 { 4 } else { 0 }
        } else if c == 0xF4 {
            if end - i >= 4 && 0x80 <= buf[i + 1] && buf[i + 1] <= 0x8F && 0x80 <= buf[i + 2]
                && buf[i + 2] < 0xC0 && 0x80 <= buf[i + 3] && buf[i + 3] < 0xC0 { 4 } else { 0 }
        } else {
            0
        };
        if step == 0 {
            proof {
                assert(utf8_step(rest) == 0 || utf8_step(rest) > rest.len());
                assert(!is_utf8(rest));
            }
            return false;
        }
        proof {
            assert(utf8_step(rest) == step);
            assert(rest.skip(step as int) =~= s.skip(i - start + step));
        }
        i = i + step;
    }
    proof {
        assert(s.skip(end - start) =~= Seq::<u8>::empty());
    }
    true
}

} // verus!
