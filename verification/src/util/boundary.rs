//! Where a name may be split: the boundaries that `OsStr::slice_encoded_bytes` accepts on unix

use vstd::prelude::*;

verus! {

/// Whether `b` is a continuation byte of UTF-8
pub open spec fn is_cont(b: u8) -> bool {
    0x80 <= b <= 0xbf
}

/// Whether `s` is the UTF-8 encoding of one character, as `str::from_utf8` accepts it
pub open spec fn is_utf8_char(s: Seq<u8>) -> bool {
    if s.len() == 1 {
        s[0] < 0x80
    } else if s.len() == 2 {
        0xc2 <= s[0] <= 0xdf && is_cont(s[1])
    } else if s.len() == 3 {
        &&& (s[0] == 0xe0 && 0xa0 <= s[1] <= 0xbf) || ((0xe1 <= s[0] <= 0xec || 0xee <= s[0] <= 0xef) && is_cont(s[1]))
            || (s[0] == 0xed && 0x80 <= s[1] <= 0x9f)
        &&& is_cont(s[2])
    } else if s.len() == 4 {
        &&& (s[0] == 0xf0 && 0x90 <= s[1] <= 0xbf) || (0xf1 <= s[0] <= 0xf3 && is_cont(s[1])) || (s[0] == 0xf4 && 0x80
            <= s[1] <= 0x8f)
        &&& is_cont(s[2])
        &&& is_cont(s[3])
    } else {
        false
    }
}

/// Whether the `len` bytes of `bytes` from `start` are the UTF-8 encoding of one character
pub open spec fn char_at(bytes: Seq<u8>, start: int, len: int) -> bool {
    0 <= start && start + len <= bytes.len() && is_utf8_char(bytes.subrange(start, start + len))
}

/// Whether the `len` bytes of `bytes` before `end` are the UTF-8 encoding of one character
pub open spec fn char_ends_at(bytes: Seq<u8>, end: int, len: int) -> bool {
    char_at(bytes, end - len, len)
}

/// Whether `bytes` may be split at `idx`: at its start, at its end, or where a
/// character of UTF-8 starts or ends, as `OsStr::slice_encoded_bytes` checks it on unix
pub open spec fn is_boundary(bytes: Seq<u8>, idx: int) -> bool {
    ||| idx == 0
    ||| idx == bytes.len()
    ||| 0 < idx < bytes.len() && (char_at(bytes, idx, 1) || char_at(bytes, idx, 2) || char_at(bytes, idx, 3)
        || char_at(bytes, idx, 4) || char_ends_at(bytes, idx, 1) || char_ends_at(bytes, idx, 2) || char_ends_at(
        bytes,
        idx,
        3,
    ) || char_ends_at(bytes, idx, 4))
}

/// Returns whether the `len` bytes of `bytes` from `start` are the UTF-8 encoding of one character
fn utf8_char_at(bytes: &[u8], start: usize, len: usize) -> (is_char: bool)
    requires
        1 <= len <= 4,
    ensures
        is_char == char_at(bytes@, start as int, len as int),
{
    if start > bytes.len() || len > bytes.len() - start {
        return false;
    }
    let ghost s = bytes@.subrange(start as int, start + len);
    assert(forall|k: int| 0 <= k < len ==> s[k] == bytes@[start + k]);
    let b0 = bytes[start];
    if len == 1 {
        b0 < 0x80
    } else if len == 2 {
        0xc2 <= b0 && b0 <= 0xdf && 0x80 <= bytes[start + 1] && bytes[start + 1] <= 0xbf
    } else if len == 3 {
        let b1 = bytes[start + 1];
        let b2 = bytes[start + 2];
        ((b0 == 0xe0 && 0xa0 <= b1 && b1 <= 0xbf) || (((0xe1 <= b0 && b0 <= 0xec) || (0xee <= b0 && b0 <= 0xef))
            && 0x80 <= b1 && b1 <= 0xbf) || (b0 == 0xed && 0x80 <= b1 && b1 <= 0x9f)) && 0x80 <= b2 && b2 <= 0xbf
    } else {
        let b1 = bytes[start + 1];
        let b2 = bytes[start + 2];
        let b3 = bytes[start + 3];
        ((b0 == 0xf0 && 0x90 <= b1 && b1 <= 0xbf) || (0xf1 <= b0 && b0 <= 0xf3 && 0x80 <= b1 && b1 <= 0xbf) || (b0
            == 0xf4 && 0x80 <= b1 && b1 <= 0x8f)) && 0x80 <= b2 && b2 <= 0xbf && 0x80 <= b3 && b3 <= 0xbf
    }
}

/// Returns whether `bytes` may be split at `idx`
pub fn is_boundary_exec(bytes: &[u8], idx: usize) -> (boundary: bool)
    ensures
        boundary == is_boundary(bytes@, idx as int),
{
    if idx == 0 || idx == bytes.len() {
        return true;
    }
    if idx > bytes.len() {
        return false;
    }
    if utf8_char_at(bytes, idx, 1) || utf8_char_at(bytes, idx, 2) || utf8_char_at(bytes, idx, 3) || utf8_char_at(
        bytes,
        idx,
        4,
    ) {
        return true;
    }
    let mut len: usize = 1;
    while len <= 4
        invariant
            1 <= len <= 5,
            0 < idx < bytes@.len(),
            forall|l: int| 1 <= l < len ==> !#[trigger] char_ends_at(bytes@, idx as int, l),
        decreases 5 - len,
    {
        if len <= idx && utf8_char_at(bytes, idx - len, len) {
            return true;
        }
        len += 1;
    }
    false
}

} // verus!
