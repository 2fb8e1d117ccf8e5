//! Utilities

pub mod boundary;
pub mod os_str_range;
pub mod path;
pub mod sort;
pub mod var_int;

pub use self::os_str_range::OsStrRange;

use {
    self::boundary::{is_boundary, is_boundary_exec},
    vstd::prelude::*,
};

verus! {

/// Whether `i` is the position of the first `needle` in `haystack`
pub open spec fn is_first_index_of(haystack: Seq<u8>, needle: u8, i: int) -> bool {
    &&& 0 <= i < haystack.len()
    &&& haystack[i] == needle
    &&& forall|j: int| 0 <= j < i ==> haystack[j] != needle
}

/// Finds the first `needle` in `haystack`.
///
/// Calls `memchr::memchr`. Its documentation promises the index of the first
/// occurrence of `needle` in `haystack`, or `None` if there is none; the
/// contract says so.
#[verifier::external_body]
pub(crate) fn find_byte(needle: u8, haystack: &[u8]) -> (res: Option<usize>)
    ensures
        match res {
            Some(i) => is_first_index_of(haystack@, needle, i as int),
            None => forall|j: int| 0 <= j < haystack@.len() ==> haystack@[j] != needle,
        },
{
    memchr::memchr(needle, haystack)
}

/// The text that `humansize` shows of a size in bytes, with its binary options
/// (units of 1024, such as `KiB`, with up to two decimals)
pub uninterp spec fn binary_size_text(value: u64) -> Seq<char>;

/// Formats a size in bytes, with binary units.
///
/// Formats `humansize::ISizeFormatter` with the `BINARY` options. Its text
/// depends on the value alone; the contract names it, and says nothing more.
#[verifier::external_body]
pub fn fmt_size(value: u64) -> (text: String)
    ensures
        text@ == binary_size_text(value),
{
    format!("{}", humansize::ISizeFormatter::new(value, humansize::BINARY))
}

/// What `PathBuf::push` makes of the path `buf` with `path` pushed onto it, on unix:
/// an absolute `path` replaces `buf`; otherwise a `/` goes between them when
/// `buf` is not empty and does not end with one already.
pub open spec fn pushed_path(buf: Seq<u8>, path: Seq<u8>) -> Seq<u8> {
    if path.len() > 0 && path[0] == 0x2f {
        path
    } else if buf.len() > 0 && buf.last() != 0x2f {
        buf.push(0x2f) + path
    } else {
        buf + path
    }
}

/// Extends a path with another, as [`PathBuf::push`] does
pub fn push_path(buf: &mut Vec<u8>, path: &[u8])
    ensures
        final(buf)@ == pushed_path(old(buf)@, path@),
{
    if path.len() > 0 && path[0] == 0x2fu8 {
        buf.clear();
    } else if buf.len() > 0 && buf[buf.len() - 1] != 0x2fu8 {
        buf.push(0x2fu8);
    }
    buf.extend_from_slice(path);
    assert(buf@ =~= pushed_path(old(buf)@, path@));
}

/// Whether two byte strings are equal
pub fn bytes_eq(lhs: &[u8], rhs: &[u8]) -> (eq: bool)
    ensures
        eq == (lhs@ == rhs@),
{
    if lhs.len() != rhs.len() {
        return false;
    }
    let mut i: usize = 0;
    while i < lhs.len()
        invariant
            lhs@.len() == rhs@.len(),
            i <= lhs@.len(),
            forall|j: int| 0 <= j < i ==> lhs@[j] == rhs@[j],
        decreases lhs@.len() - i,
    {
        if lhs[i] != rhs[i] {
            return false;
        }
        i += 1;
    }
    assert(lhs@ =~= rhs@);
    true
}

/// The MD5 digest of some bytes
pub uninterp spec fn md5_digest(data: Seq<u8>) -> Seq<u8>;

/// Computes the MD5 digest of `data`.
///
/// Calls `md5::compute`, whose result depends on `data` alone; the contract
/// names it and says nothing more of it.
#[verifier::external_body]
pub(crate) fn md5_compute(data: &[u8]) -> (digest: [u8; 16])
    ensures
        digest@ == md5_digest(data@),
{
    md5::compute(data).0
}

/// Computes the md5 of a file, from its contents
pub fn file_md5(contents: &[u8]) -> (digest: [u8; 16])
    ensures
        digest@ == md5_digest(contents@),
{
    md5_compute(contents)
}

/// Returns the md5 of an empty file
pub fn empty_md5() -> (digest: [u8; 16])
    ensures
        digest@ == md5_digest(Seq::empty()),
{
    let empty: Vec<u8> = Vec::new();
    md5_compute(empty.as_slice())
}

/// Strips the prefix `prefix` from `s`
pub fn strip_prefix<'a>(s: &'a [u8], prefix: &[u8]) -> (res: Option<&'a [u8]>)
    ensures
        match res {
            Some(rest) => prefix@.len() <= s@.len() && s@.take(prefix@.len() as int) == prefix@
                && rest@ == s@.skip(prefix@.len() as int),
            None => !(prefix@.len() <= s@.len() && s@.take(prefix@.len() as int) == prefix@),
        },
{
    if prefix.len() > s.len() {
        return None;
    }
    let head = &s[0..prefix.len()];
    if bytes_eq(head, prefix) {
        Some(&s[prefix.len()..s.len()])
    } else {
        None
    }
}

/// Strips the suffix `suffix` from `s`
pub fn strip_suffix<'a>(s: &'a [u8], suffix: &[u8]) -> (res: Option<&'a [u8]>)
    ensures
        match res {
            Some(rest) => suffix@.len() <= s@.len() && s@.skip(s@.len() - suffix@.len()) == suffix@
                && rest@ == s@.take(s@.len() - suffix@.len()),
            None => !(suffix@.len() <= s@.len() && s@.skip(s@.len() - suffix@.len()) == suffix@),
        },
{
    if suffix.len() > s.len() {
        return None;
    }
    let mid = s.len() - suffix.len();
    let tail = &s[mid..s.len()];
    if bytes_eq(tail, suffix) {
        Some(&s[0..mid])
    } else {
        None
    }
}

/// The lowercase hexadecimal digits
pub open spec fn hex_digits() -> Seq<char> {
    seq!['0', '1', '2', '3', '4', '5', '6', '7', '8', '9', 'a', 'b', 'c', 'd', 'e', 'f']
}

/// Bytes as hexadecimal text: two lowercase digits for each byte, the high one first
pub open spec fn hex_text(bytes: Seq<u8>) -> Seq<char> {
    Seq::new(
        2 * bytes.len(),
        |i: int|
            if i % 2 == 0 {
                hex_digits()[(bytes[i / 2] / 16) as int]
            } else {
                hex_digits()[(bytes[i / 2] % 16) as int]
            },
    )
}

/// The hexadecimal digit of a value below 16
fn hex_digit(n: u8) -> (digit: &'static str)
    requires
        n < 16,
    ensures
        digit@ == seq![hex_digits()[n as int]],
{
    proof {
        reveal_strlit("0");
        reveal_strlit("1");
        reveal_strlit("2");
        reveal_strlit("3");
        reveal_strlit("4");
        reveal_strlit("5");
        reveal_strlit("6");
        reveal_strlit("7");
        reveal_strlit("8");
        reveal_strlit("9");
        reveal_strlit("a");
        reveal_strlit("b");
        reveal_strlit("c");
        reveal_strlit("d");
        reveal_strlit("e");
        reveal_strlit("f");
    }
    match n {
        0 => "0",
        1 => "1",
        2 => "2",
        3 => "3",
        4 => "4",
        5 => "5",
        6 => "6",
        7 => "7",
        8 => "8",
        9 => "9",
        10 => "a",
        11 => "b",
        12 => "c",
        13 => "d",
        14 => "e",
        _ => "f",
    }
}

/// Displays bytes as a hex string
pub fn display_hex(bytes: &[u8]) -> (text: String)
    ensures
        text@ == hex_text(bytes@),
{
    let mut text = String::new();
    let mut i: usize = 0;
    while i < bytes.len()
        invariant
            i <= bytes@.len(),
            text@ == hex_text(bytes@.take(i as int)),
        decreases bytes@.len() - i,
    {
        let byte = bytes[i];
        text.append(hex_digit(byte / 16));
        text.append(hex_digit(byte % 16));
        proof {
            let before = hex_text(bytes@.take(i as int));
            assert(bytes@.take(i + 1).take(i as int) =~= bytes@.take(i as int));
            assert forall|j: int| 0 <= j < 2 * i implies #[trigger] hex_text(bytes@.take(i + 1))[j] == before[j] by {
                assert(bytes@.take(i + 1)[j / 2] == bytes@.take(i as int)[j / 2]);
            }
            assert(hex_text(bytes@.take(i + 1)) =~= before + seq![hex_digits()[(byte / 16) as int], hex_digits()[(byte % 16) as int]]);
        }
        i += 1;
    }
    assert(bytes@.take(bytes@.len() as int) =~= bytes@);
    text
}

/// Whether `idx` is the length of the common prefix of `lhs` and `rhs`
pub open spec fn is_common_prefix_len(lhs: Seq<u8>, rhs: Seq<u8>, idx: int) -> bool {
    &&& 0 <= idx <= lhs.len()
    &&& idx <= rhs.len()
    &&& forall|i: int| 0 <= i < idx ==> lhs[i] == rhs[i]
    &&& (idx < lhs.len() && idx < rhs.len()) ==> lhs[idx] != rhs[idx]
}

/// The length of the common prefix of `lhs` and `rhs`
pub open spec fn common_prefix_len(lhs: Seq<u8>, rhs: Seq<u8>) -> nat
    decreases lhs.len(),
{
    if lhs.len() == 0 || rhs.len() == 0 || lhs[0] != rhs[0] {
        0
    } else {
        1 + common_prefix_len(lhs.drop_first(), rhs.drop_first())
    }
}

/// The common prefix's length is the only one that `is_common_prefix_len` holds of.
pub proof fn lemma_common_prefix_len(lhs: Seq<u8>, rhs: Seq<u8>, idx: int)
    requires
        is_common_prefix_len(lhs, rhs, idx),
    ensures
        idx == common_prefix_len(lhs, rhs),
    decreases lhs.len(),
{
    if idx > 0 {
        assert(lhs[0] == rhs[0]);
        assert forall|i: int| 0 <= i < idx - 1 implies lhs.drop_first()[i] == rhs.drop_first()[i] by {
            assert(lhs[i + 1] == rhs[i + 1]);
        }
        lemma_common_prefix_len(lhs.drop_first(), rhs.drop_first(), idx - 1);
    }
}

/// The largest `idx`, from `limit` down, at which both names may be split
pub open spec fn split_at_most(lhs: Seq<u8>, rhs: Seq<u8>, limit: nat) -> nat
    decreases limit,
{
    if limit == 0 || (is_boundary(lhs, limit as int) && is_boundary(rhs, limit as int)) {
        limit
    } else {
        split_at_most(lhs, rhs, (limit - 1) as nat)
    }
}

/// Where two names split after their common prefix: the largest index, no
/// greater than the length of their common prefix of bytes, at which both may
/// be split (a boundary of a character)
pub open spec fn prefix_split_len(lhs: Seq<u8>, rhs: Seq<u8>) -> nat {
    split_at_most(lhs, rhs, common_prefix_len(lhs, rhs))
}

/// The split lies at boundaries of both, within the common prefix, and no
/// index between it and the end of the common prefix is a boundary of both.
pub proof fn lemma_split_at_most(lhs: Seq<u8>, rhs: Seq<u8>, limit: nat)
    ensures
        split_at_most(lhs, rhs, limit) <= limit,
        is_boundary(lhs, split_at_most(lhs, rhs, limit) as int),
        is_boundary(rhs, split_at_most(lhs, rhs, limit) as int),
        forall|j: int| split_at_most(lhs, rhs, limit) < j <= limit ==> !(#[trigger] is_boundary(lhs, j) && is_boundary(rhs, j)),
    decreases limit,
{
    if !(limit == 0 || (is_boundary(lhs, limit as int) && is_boundary(rhs, limit as int))) {
        lemma_split_at_most(lhs, rhs, (limit - 1) as nat);
    }
}

/// Returns the largest index, from `limit` down, at which both names may be split
fn split_at_most_exec(lhs: &[u8], rhs: &[u8], limit: usize) -> (idx: usize)
    ensures
        idx == split_at_most(lhs@, rhs@, limit as nat),
{
    let mut idx = limit;
    while idx > 0 && !(is_boundary_exec(lhs, idx) && is_boundary_exec(rhs, idx))
        invariant
            idx <= limit,
            split_at_most(lhs@, rhs@, limit as nat) == split_at_most(lhs@, rhs@, idx as nat),
        decreases idx,
    {
        idx -= 1;
    }
    idx
}

/// Gets the common prefix of two names and their non-common parts.
///
/// If no prefix exists, returns `("", lhs, rhs)`.
/// If both names are equal, returns `(lhs, "", "")`
///
/// The names split only where a character of UTF-8 starts or ends, as
/// `OsStr::slice_encoded_bytes` requires: the prefix ends at the last such
/// place that both names share within their common bytes.
pub fn common_os_str_prefix<'a>(lhs: &'a [u8], rhs: &'a [u8]) -> (res: (&'a [u8], &'a [u8], &'a [u8]))
    ensures
        ({
            let idx = prefix_split_len(lhs@, rhs@) as int;
            res.0@ == lhs@.take(idx) && res.1@ == lhs@.skip(idx) && res.2@ == rhs@.skip(idx)
        }),
{
    let min = if lhs.len() < rhs.len() {
        lhs.len()
    } else {
        rhs.len()
    };
    let mut common: usize = 0;
    while common < min && lhs[common] == rhs[common]
        invariant
            min <= lhs@.len(),
            min <= rhs@.len(),
            min == lhs@.len() || min == rhs@.len(),
            common <= min,
            forall|i: int| 0 <= i < common ==> lhs@[i] == rhs@[i],
        decreases min - common,
    {
        common += 1;
    }
    assert(is_common_prefix_len(lhs@, rhs@, common as int));
    proof {
        lemma_common_prefix_len(lhs@, rhs@, common as int);
        lemma_split_at_most(lhs@, rhs@, common as nat);
    }
    let idx = split_at_most_exec(lhs, rhs, common);
    (&lhs[0..idx], &lhs[idx..lhs.len()], &rhs[idx..rhs.len()])
}

/// Of two equal names, the common prefix is all of the left one and nothing
/// remains of either; of two names without a common prefix (one is empty, or
/// their first bytes differ), the prefix is empty and both remain whole.
pub proof fn lemma_common_prefix_edges(lhs: Seq<u8>, rhs: Seq<u8>)
    ensures
        lhs == rhs ==> ({
            let idx = prefix_split_len(lhs, rhs) as int;
            lhs.take(idx) == lhs && lhs.skip(idx) == Seq::<u8>::empty() && rhs.skip(idx) == Seq::<u8>::empty()
        }),
        (lhs.len() == 0 || rhs.len() == 0 || lhs[0] != rhs[0]) ==> ({
            let idx = prefix_split_len(lhs, rhs) as int;
            lhs.take(idx) == Seq::<u8>::empty() && lhs.skip(idx) == lhs && rhs.skip(idx) == rhs
        }),
{
    if lhs == rhs {
        lemma_common_prefix_len(lhs, rhs, lhs.len() as int);
        assert(split_at_most(lhs, rhs, lhs.len()) == lhs.len());
        assert(lhs.take(lhs.len() as int) =~= lhs);
        assert(lhs.skip(lhs.len() as int) =~= Seq::<u8>::empty());
    }
    if lhs.len() == 0 || rhs.len() == 0 || lhs[0] != rhs[0] {
        assert(lhs.take(0) =~= Seq::<u8>::empty());
        assert(lhs.skip(0) =~= lhs);
        assert(rhs.skip(0) =~= rhs);
    }
}

/// Whether `idx` is the length of the common suffix of `lhs` and `rhs`
pub open spec fn is_common_suffix_len(lhs: Seq<u8>, rhs: Seq<u8>, idx: int) -> bool {
    &&& 0 <= idx <= lhs.len()
    &&& idx <= rhs.len()
    &&& lhs.skip(lhs.len() - idx) == rhs.skip(rhs.len() - idx)
    &&& (idx < lhs.len() && idx < rhs.len()) ==> lhs[lhs.len() - idx - 1] != rhs[rhs.len() - idx - 1]
}

/// The length of the common suffix of `lhs` and `rhs`
pub open spec fn common_suffix_len(lhs: Seq<u8>, rhs: Seq<u8>) -> nat
    decreases lhs.len(),
{
    if lhs.len() == 0 || rhs.len() == 0 || lhs.last() != rhs.last() {
        0
    } else {
        1 + common_suffix_len(lhs.drop_last(), rhs.drop_last())
    }
}

/// The common suffix's length is the only one that `is_common_suffix_len` holds of.
pub proof fn lemma_common_suffix_len(lhs: Seq<u8>, rhs: Seq<u8>, idx: int)
    requires
        is_common_suffix_len(lhs, rhs, idx),
    ensures
        idx == common_suffix_len(lhs, rhs),
    decreases lhs.len(),
{
    if idx > 0 {
        let l = lhs.skip(lhs.len() - idx);
        let r = rhs.skip(rhs.len() - idx);
        assert(lhs.last() == l.last());
        assert(rhs.last() == r.last());
        assert(lhs.drop_last().skip(lhs.drop_last().len() - (idx - 1)) =~= l.drop_last());
        assert(rhs.drop_last().skip(rhs.drop_last().len() - (idx - 1)) =~= r.drop_last());
        if idx - 1 < lhs.drop_last().len() && idx - 1 < rhs.drop_last().len() {
            assert(lhs.drop_last()[lhs.drop_last().len() - (idx - 1) - 1] == lhs[lhs.len() - idx - 1]);
            assert(rhs.drop_last()[rhs.drop_last().len() - (idx - 1) - 1] == rhs[rhs.len() - idx - 1]);
        }
        lemma_common_suffix_len(lhs.drop_last(), rhs.drop_last(), idx - 1);
    }
}

/// Of two equal names, the common suffix is all of the left one and nothing
/// remains of either before it; of two names without a common suffix (one is
/// empty, or their last bytes differ), the suffix is empty and both remain whole.
pub proof fn lemma_common_suffix_edges(lhs: Seq<u8>, rhs: Seq<u8>)
    ensures
        lhs == rhs ==> ({
            let idx = suffix_split_len(lhs, rhs) as int;
            lhs.take(lhs.len() - idx) == Seq::<u8>::empty() && rhs.take(rhs.len() - idx) == Seq::<u8>::empty()
                && lhs.skip(lhs.len() - idx) == lhs
        }),
        (lhs.len() == 0 || rhs.len() == 0 || lhs.last() != rhs.last()) ==> ({
            let idx = suffix_split_len(lhs, rhs) as int;
            lhs.take(lhs.len() - idx) == lhs && rhs.take(rhs.len() - idx) == rhs && lhs.skip(lhs.len() - idx)
                == Seq::<u8>::empty()
        }),
{
    if lhs == rhs {
        assert(lhs.skip(0) =~= rhs.skip(0));
        lemma_common_suffix_len(lhs, rhs, lhs.len() as int);
        assert(suffix_split_at_most(lhs, rhs, lhs.len()) == lhs.len());
        assert(lhs.take(0) =~= Seq::<u8>::empty());
        assert(lhs.skip(0) =~= lhs);
    }
    if lhs.len() == 0 || rhs.len() == 0 || lhs.last() != rhs.last() {
        assert(lhs.take(lhs.len() as int) =~= lhs);
        assert(rhs.take(rhs.len() as int) =~= rhs);
        assert(lhs.skip(lhs.len() as int) =~= Seq::<u8>::empty());
    }
}

/// Whether both names may be split `len` bytes before their ends
pub open spec fn splits_before_end(lhs: Seq<u8>, rhs: Seq<u8>, len: int) -> bool {
    is_boundary(lhs, lhs.len() - len) && is_boundary(rhs, rhs.len() - len)
}

/// The largest `len`, from `limit` down, such that both names may be split
/// `len` bytes before their ends
pub open spec fn suffix_split_at_most(lhs: Seq<u8>, rhs: Seq<u8>, limit: nat) -> nat
    decreases limit,
{
    if limit == 0 || splits_before_end(lhs, rhs, limit as int) {
        limit
    } else {
        suffix_split_at_most(lhs, rhs, (limit - 1) as nat)
    }
}

/// How long the common suffix of two names is, once split: the largest
/// length, no greater than that of their common suffix of bytes, such that
/// both may be split that far before their ends (a boundary of a character)
pub open spec fn suffix_split_len(lhs: Seq<u8>, rhs: Seq<u8>) -> nat {
    suffix_split_at_most(lhs, rhs, common_suffix_len(lhs, rhs))
}

/// The split lies at boundaries of both, within the common suffix, and no
/// length between it and that of the common suffix splits both at boundaries.
pub proof fn lemma_suffix_split_at_most(lhs: Seq<u8>, rhs: Seq<u8>, limit: nat)
    ensures
        suffix_split_at_most(lhs, rhs, limit) <= limit,
        suffix_split_at_most(lhs, rhs, limit) == 0 || splits_before_end(lhs, rhs, suffix_split_at_most(lhs, rhs, limit) as int),
        forall|j: int| suffix_split_at_most(lhs, rhs, limit) < j <= limit ==> !#[trigger] splits_before_end(lhs, rhs, j),
    decreases limit,
{
    if !(limit == 0 || splits_before_end(lhs, rhs, limit as int)) {
        lemma_suffix_split_at_most(lhs, rhs, (limit - 1) as nat);
    }
}

/// Returns the largest length, from `limit` down, such that both names may be split that far before their ends
fn suffix_split_at_most_exec(lhs: &[u8], rhs: &[u8], limit: usize) -> (len: usize)
    requires
        limit <= lhs@.len(),
        limit <= rhs@.len(),
    ensures
        len == suffix_split_at_most(lhs@, rhs@, limit as nat),
        len <= limit,
{
    let mut len = limit;
    while len > 0 && !(is_boundary_exec(lhs, lhs.len() - len) && is_boundary_exec(rhs, rhs.len() - len))
        invariant
            len <= limit <= lhs@.len(),
            limit <= rhs@.len(),
            suffix_split_at_most(lhs@, rhs@, limit as nat) == suffix_split_at_most(lhs@, rhs@, len as nat),
        decreases len,
    {
        len -= 1;
    }
    len
}

/// Gets the common suffix of two names and their non-common parts.
///
/// If no suffix exists, returns `(lhs, rhs, "")`.
/// If both names are equal, returns `("", "", lhs)`
///
/// The names split only where a character of UTF-8 starts or ends, as
/// `OsStr::slice_encoded_bytes` requires: the suffix starts at the first such
/// place that both names share within their common bytes.
pub fn common_os_str_suffix<'a>(lhs: &'a [u8], rhs: &'a [u8]) -> (res: (&'a [u8], &'a [u8], &'a [u8]))
    ensures
        ({
            let idx = suffix_split_len(lhs@, rhs@) as int;
            res.0@ == lhs@.take(lhs@.len() - idx) && res.1@ == rhs@.take(rhs@.len() - idx)
                && res.2@ == lhs@.skip(lhs@.len() - idx)
        }),
{
    let lhs_len = lhs.len();
    let rhs_len = rhs.len();
    let min = if lhs_len < rhs_len {
        lhs_len
    } else {
        rhs_len
    };
    let mut common: usize = 0;
    assert(lhs@.skip(lhs_len as int) =~= rhs@.skip(rhs_len as int));
    while common < min && lhs[lhs_len - common - 1] == rhs[rhs_len - common - 1]
        invariant
            lhs_len == lhs@.len(),
            rhs_len == rhs@.len(),
            min <= lhs_len,
            min <= rhs_len,
            min == lhs_len || min == rhs_len,
            common <= min,
            lhs@.skip(lhs_len - common) == rhs@.skip(rhs_len - common),
        decreases min - common,
    {
        let ghost before = lhs@.skip(lhs_len - common);
        common += 1;
        assert(lhs@.skip(lhs_len - common) =~= seq![lhs@[lhs_len - common]] + before);
        assert(rhs@.skip(rhs_len - common) =~= seq![rhs@[rhs_len - common]] + rhs@.skip(rhs_len - (common - 1)));
    }
    assert(is_common_suffix_len(lhs@, rhs@, common as int));
    proof {
        lemma_common_suffix_len(lhs@, rhs@, common as int);
    }
    let idx = suffix_split_at_most_exec(lhs, rhs, common);
    let lhs_idx = lhs_len - idx;
    let rhs_idx = rhs_len - idx;
    (&lhs[0..lhs_idx], &rhs[0..rhs_idx], &lhs[lhs_idx..lhs_len])
}

/// Whether `lhs` orders before or with `rhs`, byte by byte, as `OsStr`s compare
pub open spec fn bytes_le(lhs: Seq<u8>, rhs: Seq<u8>) -> bool
    decreases lhs.len(),
{
    if lhs.len() == 0 {
        true
    } else if rhs.len() == 0 {
        false
    } else if lhs[0] != rhs[0] {
        lhs[0] < rhs[0]
    } else {
        bytes_le(lhs.drop_first(), rhs.drop_first())
    }
}

/// Byte strings order totally: every two compare, transitively, and only equal ones both ways.
pub proof fn lemma_bytes_le_total(a: Seq<u8>, b: Seq<u8>, c: Seq<u8>)
    ensures
        bytes_le(a, b) || bytes_le(b, a),
        bytes_le(a, b) && bytes_le(b, c) ==> bytes_le(a, c),
        bytes_le(a, b) && bytes_le(b, a) ==> a == b,
    decreases a.len(),
{
    if a.len() > 0 && b.len() > 0 && c.len() > 0 {
        lemma_bytes_le_total(a.drop_first(), b.drop_first(), c.drop_first());
    } else if a.len() > 0 && b.len() > 0 {
        lemma_bytes_le_total(a.drop_first(), b.drop_first(), c);
    }
    if a.len() > 0 && b.len() > 0 && a[0] == b[0] && bytes_le(a, b) && bytes_le(b, a) {
        assert(a =~= seq![a[0]] + a.drop_first());
        assert(b =~= seq![b[0]] + b.drop_first());
    }
    if a.len() == 0 && b.len() == 0 {
        assert(a =~= b);
    }
}

/// Returns if `lhs` orders before or with `rhs`, byte by byte
pub fn bytes_le_exec(lhs: &[u8], rhs: &[u8]) -> (le: bool)
    ensures
        le == bytes_le(lhs@, rhs@),
{
    let mut i: usize = 0;
    assert(lhs@.skip(0) =~= lhs@);
    assert(rhs@.skip(0) =~= rhs@);
    while i < lhs.len() && i < rhs.len() && lhs[i] == rhs[i]
        invariant
            i <= lhs@.len(),
            i <= rhs@.len(),
            bytes_le(lhs@, rhs@) == bytes_le(lhs@.skip(i as int), rhs@.skip(i as int)),
        decreases lhs@.len() - i,
    {
        assert(lhs@.skip(i as int).drop_first() =~= lhs@.skip(i + 1));
        assert(rhs@.skip(i as int).drop_first() =~= rhs@.skip(i + 1));
        i += 1;
    }
    if i == lhs.len() {
        true
    } else if i == rhs.len() {
        false
    } else {
        lhs[i] < rhs[i]
    }
}

} // verus!
