//! UTF-8 validity of a byte sequence, specified by the shortest-form
//! table of RFC 3629 and checked by a verified scanner: one-byte codes
//! below 0x80; two-byte codes led by 0xC2..0xDF; three-byte codes led by
//! 0xE0..0xEF with the surrogate range and overlong forms excluded; and
//! four-byte codes led by 0xF0..0xF4 capped at U+10FFFF.

use vstd::prelude::*;

verus! {

/// A continuation byte: high bit set, next bit clear.
pub open spec fn is_cont(b: u8) -> bool {
    0x80 <= b <= 0xBF
}

/// Length of the valid encoded scalar at the front of `s`, zero when the
/// front of `s` is not a valid shortest-form encoding.
pub open spec fn utf8_step(s: Seq<u8>) -> int {
    if s.len() == 0 {
        0
    } else {
        let b0 = s[0];
        if b0 < 0x80 {
            1
        } else if 0xC2 <= b0 <= 0xDF {
            if s.len() >= 2 && is_cont(s[1]) {
                2
            } else {
                0
            }
        } else if b0 == 0xE0 {
            if s.len() >= 3 && 0xA0 <= s[1] <= 0xBF && is_cont(s[2]) {
                3
            } else {
                0
            }
        } else if b0 == 0xED {
            if s.len() >= 3 && 0x80 <= s[1] <= 0x9F && is_cont(s[2]) {
                3
            } else {
                0
            }
        } else if 0xE1 <= b0 <= 0xEF {
            if s.len() >= 3 && is_cont(s[1]) && is_cont(s[2]) {
                3
            } else {
                0
            }
        } else if b0 == 0xF0 {
            if s.len() >= 4 && 0x90 <= s[1] <= 0xBF && is_cont(s[2]) && is_cont(s[3]) {
                4
            } else {
                0
            }
        } else if b0 == 0xF4 {
            if s.len() >= 4 && 0x80 <= s[1] <= 0x8F && is_cont(s[2]) && is_cont(s[3]) {
                4
            } else {
                0
            }
        } else if 0xF1 <= b0 <= 0xF3 {
            if s.len() >= 4 && is_cont(s[1]) && is_cont(s[2]) && is_cont(s[3]) {
                4
            } else {
                0
            }
        } else {
            0
        }
    }
}

/// The whole of `s` is a sequence of valid shortest-form encodings.
pub open spec fn is_utf8(s: Seq<u8>) -> bool
    decreases s.len(),
{
    s.len() == 0 || (utf8_step(s) > 0 && is_utf8(s.skip(utf8_step(s))))
}

/// Length of the valid encoded scalar at position `i` of `b`, zero when
/// there is none there.
fn step_at(b: &Vec<u8>, i: usize) -> (n: usize)
    requires
        i < b@.len(),
    ensures
        n == utf8_step(b@.skip(i as int)),
        n <= b@.len() - i,
{
    let ghost s = b@.skip(i as int);
    let rem: usize = b.len() - i;
    let b0 = b[i];
    proof {
        assert(s[0] == b0);
    }
    if b0 < 0x80 {
        1
    } else if 0xC2 <= b0 && b0 <= 0xDF {
        if rem >= 2 && 0x80 <= b[i + 1] && b[i + 1] <= 0xBF {
            2
        } else {
            0
        }
    } else if b0 == 0xE0 {
        if rem >= 3 && 0xA0 <= b[i + 1] && b[i + 1] <= 0xBF && 0x80 <= b[i + 2] && b[i + 2]
            <= 0xBF {
            3
        } else {
            0
        }
    } else if b0 == 0xED {
        if rem >= 3 && 0x80 <= b[i + 1] && b[i + 1] <= 0x9F && 0x80 <= b[i + 2] && b[i + 2]
            <= 0xBF {
            3
        } else {
            0
        }
    } else if 0xE1 <= b0 && b0 <= 0xEF {
        if rem >= 3 && 0x80 <= b[i + 1] && b[i + 1] <= 0xBF && 0x80 <= b[i + 2] && b[i + 2]
            <= 0xBF {
            3
        } else {
            0
        }
    } else if b0 == 0xF0 {
        if rem >= 4 && 0x90 <= b[i + 1] && b[i + 1] <= 0xBF && 0x80 <= b[i + 2] && b[i + 2]
            <= 0xBF && 0x80 <= b[i + 3] && b[i + 3] <= 0xBF {
            4
        } else {
            0
        }
    } else if b0 == 0xF4 {
        if rem >= 4 && 0x80 <= b[i + 1] && b[i + 1] <= 0x8F && 0x80 <= b[i + 2] && b[i + 2]
            <= 0xBF && 0x80 <= b[i + 3] && b[i + 3] <= 0xBF {
            4
        } else {
            0
        }
    } else if 0xF1 <= b0 && b0 <= 0xF3 {
        if rem >= 4 && 0x80 <= b[i + 1] && b[i + 1] <= 0xBF && 0x80 <= b[i + 2] && b[i + 2]
            <= 0xBF && 0x80 <= b[i + 3] && b[i + 3] <= 0xBF {
            4
        } else {
            0
        }
    } else {
        0
    }
}

/// Whether `b` is valid UTF-8 under `is_utf8`.
pub fn is_valid_utf8(b: &Vec<u8>) -> (r: bool)
    ensures
        r == is_utf8(b@),
{
    let mut i: usize = 0;
    proof {
        assert(b@.skip(0) =~= b@);
    }
    while i < b.len()
        invariant
            i <= b@.len(),
            is_utf8(b@) == is_utf8(b@.skip(i as int)),
        decreases b@.len() - i,
    {
        let n = step_at(b, i);
        if n == 0 {
            return false;
        }
        proof {
            assert(b@.skip(i as int).skip(n as int) =~= b@.skip(i + n));
        }
        i = i + n;
    }
    proof {
        assert(b@.skip(i as int).len() == 0);
    }
    true
}

} // verus!
