//! Validation of UTF-8 byte sequences: the well-formedness of every
//! one-, two-, three- and four-byte sequence, with overlong forms,
//! surrogates and values past the last code point rejected.

use vstd::prelude::*;

verus! {

/// A continuation byte, `0x80..=0xBF`.
pub open spec fn is_cont(b: u8) -> bool {
    0x80 <= b && b <= 0xBF
}

/// How many bytes the UTF-8 sequence starting with `b0` occupies, or 0
/// when no valid sequence starts with `b0`.
pub open spec fn utf8_len(b0: u8) -> nat {
    if b0 < 0x80 {
        1
    } else if 0xC2 <= b0 && b0 <= 0xDF {
        2
    } else if 0xE0 <= b0 && b0 <= 0xEF {
        3
    } else if 0xF0 <= b0 && b0 <= 0xF4 {
        4
    } else {
        0
    }
}

/// The bytes following `s[0]` complete one valid sequence of length
/// `utf8_len(s[0])` at the front of `s`.
pub open spec fn valid_utf8_head(s: Seq<u8>) -> bool
    recommends
        s.len() > 0,
{
    let b0 = s[0];
    if b0 < 0x80 {
        true
    } else if 0xC2 <= b0 && b0 <= 0xDF {
        s.len() >= 2 && is_cont(s[1])
    } else if b0 == 0xE0 {
        s.len() >= 3 && 0xA0 <= s[1] && s[1] <= 0xBF && is_cont(s[2])
    } else if b0 == 0xED {
        s.len() >= 3 && 0x80 <= s[1] && s[1] <= 0x9F && is_cont(s[2])
    } else if 0xE1 <= b0 && b0 <= 0xEF {
        s.len() >= 3 && is_cont(s[1]) && is_cont(s[2])
    } else if b0 == 0xF0 {
        s.len() >= 4 && 0x90 <= s[1] && s[1] <= 0xBF && is_cont(s[2]) && is_cont(s[3])
    } else if 0xF1 <= b0 && b0 <= 0xF3 {
        s.len() >= 4 && is_cont(s[1]) && is_cont(s[2]) && is_cont(s[3])
    } else if b0 == 0xF4 {
        s.len() >= 4 && 0x80 <= s[1] && s[1] <= 0x8F && is_cont(s[2]) && is_cont(s[3])
    } else {
        false
    }
}

/// `s` is a well-formed UTF-8 byte sequence.
pub open spec fn valid_utf8(s: Seq<u8>) -> bool
    decreases s.len(),
{
    if s.len() == 0 {
        true
    } else {
        valid_utf8_head(s) && utf8_len(s[0]) > 0 && valid_utf8(s.skip(utf8_len(s[0]) as int))
    }
}

/// Decides `valid_utf8` for the bytes of `input` between `start` and
/// `end`.
pub fn check_utf8(input: &[u8], start: usize, end: usize) -> (r: bool)
    requires
        start <= end <= input@.len(),
    ensures
        r == valid_utf8(input@.subrange(start as int, end as int)),
    decreases end - start,
{
    let ghost s = input@.subrange(start as int, end as int);
    if start == end {
        true
    } else {
        let b0 = input[start];
        assert(b0 == s[0]);
        let avail = end - start;
        let step: usize = if b0 < 0x80 {
            1
        } else if 0xC2 <= b0 && b0 <= 0xDF {
            if !(avail >= 2 && is_cont_byte(input[start + 1])) {
                return false;
            }
            2
        } else if b0 == 0xE0 {
            if !(avail >= 3 && 0xA0 <= input[start + 1] && input[start + 1] <= 0xBF
                && is_cont_byte(input[start + 2])) {
                return false;
            }
            3
        } else if b0 == 0xED {
            if !(avail >= 3 && 0x80 <= input[start + 1] && input[start + 1] <= 0x9F
                && is_cont_byte(input[start + 2])) {
                return false;
            }
            3
        } else if 0xE1 <= b0 && b0 <= 0xEF {
            if !(avail >= 3 && is_cont_byte(input[start + 1]) && is_cont_byte(input[start + 2])) {
                return false;
            }
            3
        } else if b0 == 0xF0 {
            if !(avail >= 4 && 0x90 <= input[start + 1] && input[start + 1] <= 0xBF
                && is_cont_byte(input[start + 2]) && is_cont_byte(input[start + 3])) {
                return false;
            }
            4
        } else if 0xF1 <= b0 && b0 <= 0xF3 {
            if !(avail >= 4 && is_cont_byte(input[start + 1]) && is_cont_byte(input[start + 2])
                && is_cont_byte(input[start + 3])) {
                return false;
            }
            4
        } else if b0 == 0xF4 {
            if !(avail >= 4 && 0x80 <= input[start + 1] && input[start + 1] <= 0x8F
                && is_cont_byte(input[start + 2]) && is_cont_byte(input[start + 3])) {
                return false;
            }
            4
        } else {
            return false;
        };
        assert(valid_utf8_head(s) && step == utf8_len(s[0]) && step <= avail);
        assert(s.skip(step as int) =~= input@.subrange(start + step, end as int));
        check_utf8(input, start + step, end)
    }
}

/// Executable twin of [`is_cont`].
fn is_cont_byte(b: u8) -> (r: bool)
    ensures
        r == is_cont(b),
{
    0x80 <= b && b <= 0xBF
}

/// Bytes below `0x80` are one-byte sequences, so any all-ASCII byte
/// sequence is well-formed UTF-8.
pub proof fn lemma_ascii_valid(s: Seq<u8>)
    requires
        forall|i: int| 0 <= i < s.len() ==> s[i] < 0x80,
    ensures
        valid_utf8(s),
    decreases s.len(),
{
    if s.len() > 0 {
        assert forall|i: int| 0 <= i < s.skip(1).len() implies s.skip(1)[i] < 0x80 by {
            assert(s.skip(1)[i] == s[i + 1]);
        }
        lemma_ascii_valid(s.skip(1));
    }
}

} // verus!
