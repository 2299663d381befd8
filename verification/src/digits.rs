//! Decimal ASCII lines of the wire grammar: rendering a number without
//! leading zeros, and reading a decimal line back, with its exact value.

use vstd::prelude::*;

verus! {

broadcast use vstd::std_specs::vec::group_vec_axioms, vstd::seq::group_seq_axioms;

/// The decimal digits of `n`, most significant first, no leading zeros.
pub open spec fn dec_digits(n: nat) -> Seq<u8>
    decreases n,
{
    if n < 10 {
        seq![(48 + n) as u8]
    } else {
        dec_digits(n / 10) + seq![(48 + n % 10) as u8]
    }
}

pub open spec fn is_digit(c: u8) -> bool {
    48 <= c && c <= 57
}

pub open spec fn all_digits(s: Seq<u8>) -> bool {
    forall|i: int| 0 <= i < s.len() ==> is_digit(#[trigger] s[i])
}

/// The value of a digit string, most significant first.
pub open spec fn dec_value(s: Seq<u8>) -> int
    decreases s.len(),
{
    if s.len() == 0 {
        0
    } else {
        dec_value(s.drop_last()) * 10 + (s.last() - 48)
    }
}

pub proof fn lemma_dec_value_nonneg(s: Seq<u8>)
    requires
        all_digits(s),
    ensures
        dec_value(s) >= 0,
    decreases s.len(),
{
    if s.len() > 0 {
        assert(all_digits(s.drop_last()));
        lemma_dec_value_nonneg(s.drop_last());
    }
}

/// Rendering and reading decimal agree: the digits of `n` are one or more
/// decimal digits and read back as `n`.
pub proof fn lemma_dec_digits_value(n: nat)
    ensures
        dec_digits(n).len() >= 1,
        all_digits(dec_digits(n)),
        dec_value(dec_digits(n)) == n,
    decreases n,
{
    if n < 10 {
        let d = dec_digits(n);
        assert(d.drop_last() =~= Seq::<u8>::empty());
        assert(d.last() == (48 + n) as u8);
        assert(dec_value(d) == dec_value(d.drop_last()) * 10 + (d.last() - 48));
        assert(dec_value(d) == n);
    } else {
        lemma_dec_digits_value(n / 10);
        let d = dec_digits(n);
        assert(d.drop_last() =~= dec_digits(n / 10));
        assert(d.last() == (48 + n % 10) as u8);
        assert(dec_value(d) == dec_value(dec_digits(n / 10)) * 10 + n % 10);
    }
}

/// The value of a digit string only grows as digits are appended.
pub proof fn lemma_dec_value_prefix(s: Seq<u8>, k: int)
    requires
        all_digits(s),
        0 <= k <= s.len(),
    ensures
        dec_value(s.take(k)) <= dec_value(s),
    decreases s.len(),
{
    if k < s.len() {
        assert(all_digits(s.drop_last()));
        assert(s.take(k) =~= s.drop_last().take(k));
        lemma_dec_value_prefix(s.drop_last(), k);
        lemma_dec_value_nonneg(s.drop_last());
    } else {
        assert(s.take(k) =~= s);
    }
}

/// Appends the decimal rendering of `n` to `out`.
pub fn push_decimal(out: &mut Vec<u8>, n: u64)
    ensures
        final(out)@ == old(out)@ + dec_digits(n as nat),
    decreases n,
{
    if n < 10 {
        out.push(48 + n as u8);
        proof {
            assert(out@ =~= old(out)@ + dec_digits(n as nat));
        }
    } else {
        push_decimal(out, n / 10);
        out.push(48 + (n % 10) as u8);
        proof {
            assert(out@ =~= old(out)@ + dec_digits(n as nat));
        }
    }
}

/// Reads `buf[start..end]` as an unsigned decimal line: `Some(v)` exactly
/// when the range is one or more digits whose value fits a `u64`.
pub fn parse_decimal(buf: &Vec<u8>, start: usize, end: usize) -> (r: Option<u64>)
    requires
        start <= end <= buf.len(),
    ensures
        ({
            let line = buf@.subrange(start as int, end as int);
            match r {
                Some(v) => all_digits(line) && line.len() >= 1 && dec_value(line) == v,
                None => !(all_digits(line) && line.len() >= 1 && dec_value(line)
                    <= u64::MAX),
            }
        }),
{
    let ghost line = buf@.subrange(start as int, end as int);
    if start == end {
        return None;
    }
    let mut cur: u64 = 0;
    let mut j: usize = start;
    proof {
        assert(line.take(0) =~= Seq::<u8>::empty());
    }
    while j < end
        invariant
            start <= j <= end <= buf.len(),
            line == buf@.subrange(start as int, end as int),
            all_digits(line.take(j - start)),
            cur == dec_value(line.take(j - start)),
        decreases end - j,
    {
        let c = buf[j];
        proof {
            assert(line[j - start] == c);
        }
        if c < 48 || c > 57 {
            return None;
        }
        let next: u128 = cur as u128 * 10 + (c - 48) as u128;
        proof {
            let k = j - start;
            assert(line.take(k + 1).drop_last() =~= line.take(k));
            assert(line.take(k + 1).last() == c);
            assert(dec_value(line.take(k + 1)) == next);
        }
        if next > u64::MAX as u128 {
            proof {
                if all_digits(line) {
                    lemma_dec_value_prefix(line, j - start + 1);
                }
            }
            return None;
        }
        cur = next as u64;
        j = j + 1;
    }
    proof {
        assert(line.take(end - start) =~= line);
    }
    Some(cur)
}

/// The decimal line of an `i64`: an optional leading minus sign, then the
/// digits of the magnitude.
pub open spec fn int_digits(v: i64) -> Seq<u8> {
    if v >= 0 {
        dec_digits(v as nat)
    } else {
        seq![45u8] + dec_digits((-(v as int)) as nat)
    }
}

/// The `i64` a decimal line stands for: an optional minus sign, then one or
/// more digits, the value within the type's range.
pub open spec fn int_line_value(line: Seq<u8>) -> Option<i64> {
    if line.len() >= 1 && line[0] == 45 {
        let mag = line.skip(1);
        if mag.len() >= 1 && all_digits(mag) && dec_value(mag) <= 0x8000_0000_0000_0000 {
            Some((-dec_value(mag)) as i64)
        } else {
            None
        }
    } else if line.len() >= 1 && all_digits(line) && dec_value(line) <= i64::MAX {
        Some(dec_value(line) as i64)
    } else {
        None
    }
}

/// Appends the decimal rendering of `v` to `out`.
pub fn push_int_decimal(out: &mut Vec<u8>, v: i64)
    ensures
        final(out)@ == old(out)@ + int_digits(v),
{
    if v >= 0 {
        push_decimal(out, v as u64);
    } else {
        out.push(45);
        let mag: u64 = if v == i64::MIN {
            0x8000_0000_0000_0000
        } else {
            (-v) as u64
        };
        push_decimal(out, mag);
        proof {
            assert(out@ =~= old(out)@ + int_digits(v));
        }
    }
}

/// Reads `buf[start..end]` as a signed decimal line.
pub fn parse_int_line(buf: &Vec<u8>, start: usize, end: usize) -> (r: Option<i64>)
    requires
        start <= end <= buf.len(),
    ensures
        r == int_line_value(buf@.subrange(start as int, end as int)),
{
    let ghost line = buf@.subrange(start as int, end as int);
    if start < end && buf[start] == 45 {
        proof {
            assert(line[0] == 45);
            assert(line.skip(1) =~= buf@.subrange(start + 1, end as int));
        }
        match parse_decimal(buf, start + 1, end) {
            Some(mag) => {
                if mag <= 0x7fff_ffff_ffff_ffff {
                    Some(-(mag as i64))
                } else if mag == 0x8000_0000_0000_0000 {
                    Some(i64::MIN)
                } else {
                    None
                }
            },
            None => None,
        }
    } else {
        match parse_decimal(buf, start, end) {
            Some(v) => {
                if v <= 0x7fff_ffff_ffff_ffff {
                    proof {
                        if line.len() >= 1 && line[0] == 45 {
                            assert(!is_digit(line[0]));
                        }
                    }
                    Some(v as i64)
                } else {
                    None
                }
            },
            None => None,
        }
    }
}

/// Rendering and reading a signed decimal line agree, and the line holds
/// nothing but a possible minus sign and digits.
pub proof fn lemma_int_digits_value(v: i64)
    ensures
        int_line_value(int_digits(v)) == Some(v),
        int_digits(v).len() >= 1,
        forall|i: int| 0 <= i < int_digits(v).len() ==> (#[trigger] int_digits(v)[i] == 45
            || is_digit(int_digits(v)[i])),
{
    if v >= 0 {
        lemma_dec_digits_value(v as nat);
        let line = int_digits(v);
        assert(is_digit(line[0]));
        assert(line[0] != 45);
    } else {
        let mag = (-(v as int)) as nat;
        lemma_dec_digits_value(mag);
        let line = int_digits(v);
        assert(line.skip(1) =~= dec_digits(mag));
        assert(mag <= 0x8000_0000_0000_0000);
        assert(int_line_value(line) == Some((-(mag as int)) as i64));
        assert((-(mag as int)) as i64 == v);
    }
}

} // verus!
