//! UTF-8 validity, stated byte by byte and checked by a verified scanner.
//!
//! The table follows the standard well-formed byte ranges: overlong forms,
//! surrogate code points and values above U+10FFFF are all rejected.

use vstd::prelude::*;

verus! {

/// A continuation byte: `10xxxxxx`.
pub open spec fn utf8_cont(b: u8) -> bool {
    0x80 <= b && b <= 0xBF
}

/// The bytes of `s` from `i` on form a well-formed UTF-8 sequence.
pub open spec fn is_utf8_from(s: Seq<u8>, i: int) -> bool
    decreases s.len() - i,
{
    if i >= s.len() {
        true
    } else {
        let b0 = s[i];
        if b0 < 0x80 {
            is_utf8_from(s, i + 1)
        } else if 0xC2 <= b0 && b0 <= 0xDF {
            i + 2 <= s.len() && utf8_cont(s[i + 1]) && is_utf8_from(s, i + 2)
        } else if b0 == 0xE0 {
            i + 3 <= s.len() && 0xA0 <= s[i + 1] && s[i + 1] <= 0xBF && utf8_cont(s[i + 2])
                && is_utf8_from(s, i + 3)
        } else if (0xE1 <= b0 && b0 <= 0xEC) || b0 == 0xEE || b0 == 0xEF {
            i + 3 <= s.len() && utf8_cont(s[i + 1]) && utf8_cont(s[i + 2]) && is_utf8_from(
                s,
                i + 3,
            )
        } else if b0 == 0xED {
            i + 3 <= s.len() && 0x80 <= s[i + 1] && s[i + 1] <= 0x9F && utf8_cont(s[i + 2])
                && is_utf8_from(s, i + 3)
        } else if b0 == 0xF0 {
            i + 4 <= s.len() && 0x90 <= s[i + 1] && s[i + 1] <= 0xBF && utf8_cont(s[i + 2])
                && utf8_cont(s[i + 3]) && is_utf8_from(s, i + 4)
        } else if 0xF1 <= b0 && b0 <= 0xF3 {
            i + 4 <= s.len() && utf8_cont(s[i + 1]) && utf8_cont(s[i + 2]) && utf8_cont(s[i + 3])
                && is_utf8_from(s, i + 4)
        } else if b0 == 0xF4 {
            i + 4 <= s.len() && 0x80 <= s[i + 1] && s[i + 1] <= 0x8F && utf8_cont(s[i + 2])
                && utf8_cont(s[i + 3]) && is_utf8_from(s, i + 4)
        } else {
            false
        }
    }
}

/// `s` as a whole is well-formed UTF-8.
pub open spec fn is_utf8(s: Seq<u8>) -> bool {
    is_utf8_from(s, 0)
}

/// Decide whether `v` holds well-formed UTF-8.
pub fn validate_utf8(v: &Vec<u8>) -> (r: bool)
    ensures
        r == is_utf8(v@),
{
    let n = v.len();
    let mut i: usize = 0;
    while i < n
        invariant
            i <= n,
            n == v@.len(),
            is_utf8(v@) == is_utf8_from(v@, i as int),
        decreases n - i,
    {
        let b0 = v[i];
        let rem = n - i;
        if b0 < 0x80 {
            i = i + 1;
        } else if 0xC2 <= b0 && b0 <= 0xDF {
            if !(rem >= 2 && 0x80 <= v[i + 1] && v[i + 1] <= 0xBF) {
                return false;
            }
            i = i + 2;
        } else if b0 == 0xE0 {
            if !(rem >= 3 && 0xA0 <= v[i + 1] && v[i + 1] <= 0xBF && 0x80 <= v[i + 2] && v[i + 2]
                <= 0xBF) {
                return false;
            }
            i = i + 3;
        } else if (0xE1 <= b0 && b0 <= 0xEC) || b0 == 0xEE || b0 == 0xEF {
            if !(rem >= 3 && 0x80 <= v[i + 1] && v[i + 1] <= 0xBF && 0x80 <= v[i + 2] && v[i + 2]
                <= 0xBF) {
                return false;
            }
            i = i + 3;
        } else if b0 == 0xED {
            if !(rem >= 3 && 0x80 <= v[i + 1] && v[i + 1] <= 0x9F && 0x80 <= v[i + 2] && v[i + 2]
                <= 0xBF) {
                return false;
            }
            i = i + 3;
        } else if b0 == 0xF0 {
            if !(rem >= 4 && 0x90 <= v[i + 1] && v[i + 1] <= 0xBF && 0x80 <= v[i + 2] && v[i + 2]
                <= 0xBF && 0x80 <= v[i + 3] && v[i + 3] <= 0xBF) {
                return false;
            }
            i = i + 4;
        } else if 0xF1 <= b0 && b0 <= 0xF3 {
            if !(rem >= 4 && 0x80 <= v[i + 1] && v[i + 1] <= 0xBF && 0x80 <= v[i + 2] && v[i + 2]
                <= 0xBF && 0x80 <= v[i + 3] && v[i + 3] <= 0xBF) {
                return false;
            }
            i = i + 4;
        } else if b0 == 0xF4 {
            if !(rem >= 4 && 0x80 <= v[i + 1] && v[i + 1] <= 0x8F && 0x80 <= v[i + 2] && v[i + 2]
                <= 0xBF && 0x80 <= v[i + 3] && v[i + 3] <= 0xBF) {
                return false;
            }
            i = i + 4;
        } else {
            return false;
        }
    }
    true
}

} // verus!
