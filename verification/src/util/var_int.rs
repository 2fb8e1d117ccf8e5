//! Variable-length integers
//!
//! A `u64` is written in groups of 7 bits, least significant group first.
//! Every byte but the last has its high bit set. After 8 such bytes, the 9th
//! byte holds the remaining 8 bits whole, so no encoding exceeds 9 bytes.

use vstd::prelude::*;

verus! {

/// Maximum number of bytes of an encoded integer
pub const MAX_BUFFER_LENGTH: u64 = 9;

/// Exclusive upper bound of the value that the bytes from the `i`-th byte on
/// can still hold: `2^(64 - 7 * i)` for `i <= 8`.
pub open spec fn remaining_bound(i: nat) -> nat
    decreases 8 - i,
{
    if i >= 8 {
        256
    } else {
        128 * remaining_bound(i + 1)
    }
}

/// The bytes that encode `n`, given that `i` bytes of the integer were already written.
pub open spec fn encoding_from(n: nat, i: nat) -> Seq<u8>
    decreases 9 - i,
{
    if n <= 0x7f || i + 1 >= MAX_BUFFER_LENGTH {
        seq![n as u8]
    } else {
        seq![(n % 128 + 128) as u8] + encoding_from(n / 128, i + 1)
    }
}

/// The encoding of `n`
pub open spec fn encoding(n: u64) -> Seq<u8> {
    encoding_from(n as nat, 0)
}

/// Decodes the bytes of an integer from `bytes[i]` on, where `i` is also the
/// number of bytes of it already read.
///
/// Returns the value that those bytes hold and the index one past its last byte,
/// or `None` if the bytes end first.
pub open spec fn decoding_from(bytes: Seq<u8>, i: nat) -> Option<(nat, nat)>
    decreases bytes.len() - i,
{
    if i >= bytes.len() {
        None
    } else if bytes[i as int] < 128 || i + 1 >= MAX_BUFFER_LENGTH {
        Some((bytes[i as int] as nat, i + 1))
    } else {
        match decoding_from(bytes, i + 1) {
            Some((v, end)) => Some((((bytes[i as int] - 128) + 128 * v) as nat, end)),
            None => None,
        }
    }
}

/// Decodes an integer at the start of `bytes`: its value and the number of bytes it takes.
pub open spec fn decoding(bytes: Seq<u8>) -> Option<(nat, nat)> {
    decoding_from(bytes, 0)
}

proof fn lemma_remaining_bound_top()
    ensures
        remaining_bound(0) == 0x1_0000_0000_0000_0000,
        remaining_bound(8) == 256,
{
    reveal_with_fuel(remaining_bound, 10);
}

proof fn lemma_remaining_bound_pos(i: nat)
    ensures
        remaining_bound(i) >= 256,
    decreases 8 - i,
{
    if i < 8 {
        lemma_remaining_bound_pos(i + 1);
    }
}

/// What `decoding_from` gives lies below the bound of its position.
proof fn lemma_decoding_from_bound(bytes: Seq<u8>, i: nat)
    requires
        i <= 8,
    ensures
        decoding_from(bytes, i) matches Some((v, end)) ==> v < remaining_bound(i) && i < end <= bytes.len() && end <= 9,
    decreases bytes.len() - i,
{
    if i < bytes.len() && !(bytes[i as int] < 128 || i + 1 >= MAX_BUFFER_LENGTH) {
        lemma_decoding_from_bound(bytes, i + 1);
    }
    lemma_remaining_bound_pos(i);
}

/// Decoding reads an encoding back, whatever follows it.
proof fn lemma_decoding_from_encoding(n: nat, i: nat, prefix: Seq<u8>, rest: Seq<u8>)
    requires
        i <= 8,
        prefix.len() == i,
        n < remaining_bound(i),
    ensures
        decoding_from(prefix + encoding_from(n, i) + rest, i) == Some((n, i + encoding_from(n, i).len())),
        1 <= encoding_from(n, i).len() <= 9 - i,
    decreases 9 - i,
{
    let all = prefix + encoding_from(n, i) + rest;
    if n <= 0x7f || i + 1 >= MAX_BUFFER_LENGTH {
        assert(all[i as int] == n as u8);
        if i >= 8 {
            assert(remaining_bound(i) == 256);
        }
    } else {
        let tail = encoding_from(n / 128, i + 1);
        let prefix2 = prefix.push((n % 128 + 128) as u8);
        assert(remaining_bound(i) == 128 * remaining_bound(i + 1));
        assert(n / 128 < remaining_bound(i + 1)) by (nonlinear_arith)
            requires
                n < 128 * remaining_bound(i + 1),
        ;
        lemma_decoding_from_encoding(n / 128, i + 1, prefix2, rest);
        assert(prefix2 + tail + rest =~= all);
        assert(all[i as int] == (n % 128 + 128) as u8);
    }
}

/// Decoding an encoded integer gives it back, with the number of bytes that
/// were written, whatever bytes follow it.
pub proof fn lemma_decode_encode(n: u64, rest: Seq<u8>)
    ensures
        decoding(encoding(n) + rest) == Some((n as nat, encoding(n).len())),
        1 <= encoding(n).len() <= MAX_BUFFER_LENGTH,
{
    lemma_remaining_bound_top();
    lemma_decoding_from_encoding(n as nat, 0, Seq::empty(), rest);
    assert(Seq::<u8>::empty() + encoding(n) + rest =~= encoding(n) + rest);
}

/// A decoded value always fits in a `u64` and takes between 1 and 9 bytes.
pub proof fn lemma_decoding_fits(bytes: Seq<u8>)
    ensures
        decoding(bytes) matches Some((v, len)) ==> v <= u64::MAX && 1 <= len <= bytes.len() && len
            <= MAX_BUFFER_LENGTH,
{
    lemma_remaining_bound_top();
    lemma_decoding_from_bound(bytes, 0);
}

/// Encodes a variable-length `u64`, appending it to `buffer`.
///
/// Returns the number of bytes written
pub fn encode(buffer: &mut Vec<u8>, n: u64) -> (bytes_written: u64)
    ensures
        final(buffer)@ == old(buffer)@ + encoding(n),
        bytes_written == encoding(n).len(),
        1 <= bytes_written <= MAX_BUFFER_LENGTH,
{
    let ghost start = buffer@;
    let ghost value = n;
    let mut n = n;
    let mut bytes_written: u64 = 0;
    proof {
        lemma_remaining_bound_top();
        lemma_decode_encode(n, Seq::empty());
    }
    loop
        invariant_except_break
            bytes_written <= 8,
            n < remaining_bound(bytes_written as nat),
            start + encoding(value) == buffer@ + encoding_from(n as nat, bytes_written as nat),
            buffer@.len() == start.len() + bytes_written,
        ensures
            buffer@ == start + encoding(value),
            buffer@.len() == start.len() + bytes_written,
            1 <= bytes_written <= MAX_BUFFER_LENGTH,
        decreases 8 - bytes_written,
    {
        if n <= 0x7f || bytes_written + 1 >= MAX_BUFFER_LENGTH {
            proof {
                if bytes_written >= 8 {
                    reveal_with_fuel(remaining_bound, 2);
                }
            }
            buffer.push(n as u8);
            bytes_written += 1;
            assert(buffer@ =~= start + encoding(value));
            break;
        } else {
            let part = (n % 128 + 128) as u8;
            buffer.push(part);
            proof {
                assert(remaining_bound(bytes_written as nat) == 128 * remaining_bound(
                    bytes_written as nat + 1,
                ));
                assert(n / 128 < remaining_bound(bytes_written as nat + 1)) by (nonlinear_arith)
                    requires
                        n < 128 * remaining_bound(bytes_written as nat + 1),
                ;
            }
            n = n / 128;
            bytes_written += 1;
        }
    }
    bytes_written
}

/// Decodes a variable-length `u64` at the start of `bytes`.
///
/// Returns the value and the number of bytes that it takes, or `None` if
/// `bytes` ends before the integer does.
pub fn decode(bytes: &[u8]) -> (res: Option<(u64, usize)>)
    ensures
        match decoding(bytes@) {
            Some((v, len)) => res == Some((v as u64, len as usize)),
            None => res is None,
        },
        res matches Some((_, len)) ==> 1 <= len <= bytes@.len() && len <= MAX_BUFFER_LENGTH,
{
    let mut bytes_read: usize = 0;
    let mut n: u64 = 0;
    let mut mult: u64 = 1;
    proof {
        lemma_remaining_bound_top();
        lemma_decoding_fits(bytes@);
    }
    loop
        invariant
            bytes_read <= 8,
            mult as int * remaining_bound(bytes_read as nat) == 0x1_0000_0000_0000_0000,
            n < mult,
            decoding(bytes@) == match decoding_from(bytes@, bytes_read as nat) {
                Some((v, end)) => Some(((n + mult * v) as nat, end)),
                None => None,
            },
            decoding(bytes@) matches Some((v, len)) ==> v <= u64::MAX && 1 <= len <= bytes@.len() && len
                <= MAX_BUFFER_LENGTH,
        decreases 8 - bytes_read,
    {
        if bytes_read >= bytes.len() {
            return None;
        }
        let part = bytes[bytes_read];
        let ghost rb = remaining_bound(bytes_read as nat);
        proof {
            lemma_remaining_bound_pos(bytes_read as nat);
            if bytes_read >= 8 {
                reveal_with_fuel(remaining_bound, 2);
            }
        }
        if part < 128 || bytes_read + 1 >= 9 {
            assert(part < rb) by {
                if bytes_read < 8 {
                    lemma_remaining_bound_pos(bytes_read as nat + 1);
                }
            }
            assert(n + mult * part < 0x1_0000_0000_0000_0000) by (nonlinear_arith)
                requires
                    n < mult,
                    part < rb,
                    mult * rb == 0x1_0000_0000_0000_0000,
            ;
            let value = n + mult * (part as u64);
            return Some((value, bytes_read + 1));
        } else {
            let ghost rb_next = remaining_bound(bytes_read as nat + 1);
            assert(rb == 128 * rb_next);
            proof {
                lemma_remaining_bound_pos(bytes_read as nat + 1);
            }
            let low = (part - 128) as u64;
            assert(n + mult * low < mult * 128 && mult * 128 * rb_next == 0x1_0000_0000_0000_0000)
                by (nonlinear_arith)
                requires
                    n < mult,
                    low < 128,
                    mult * rb == 0x1_0000_0000_0000_0000,
                    rb == 128 * rb_next,
            ;
            assert(mult * 128 <= 0x100_0000_0000_0000) by (nonlinear_arith)
                requires
                    mult * 128 * rb_next == 0x1_0000_0000_0000_0000,
                    rb_next >= 256,
            ;
            let ghost old_n = n;
            let ghost old_mult = mult;
            n = n + mult * low;
            mult = mult * 128;
            bytes_read += 1;
            proof {
                if let Some((v, end)) = decoding_from(bytes@, bytes_read as nat) {
                    assert(old_mult * (low + 128 * v) == old_mult * low + (old_mult * 128) * v)
                        by (nonlinear_arith);
                }
            }
        }
    }
}

} // verus!
