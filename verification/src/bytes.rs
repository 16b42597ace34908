//! Raw byte-buffer primitives shared by every decoder: little-endian
//! integers and NUL-terminated strings addressed by absolute file offset.

use vstd::prelude::*;

use crate::error::HwdbError;

verus! {

/// The 64-bit little-endian integer stored at `off` in `buf`.
pub open spec fn le64_at(buf: Seq<u8>, off: int) -> u64
    recommends
        0 <= off,
        off + 8 <= buf.len(),
{
    (buf[off] as u64) | ((buf[off + 1] as u64) << 8) | ((buf[off + 2] as u64) << 16)
        | ((buf[off + 3] as u64) << 24) | ((buf[off + 4] as u64) << 32)
        | ((buf[off + 5] as u64) << 40) | ((buf[off + 6] as u64) << 48)
        | ((buf[off + 7] as u64) << 56)
}

/// Reads the 64-bit little-endian integer stored at `off`.
pub fn read_le64(buf: &Vec<u8>, off: usize) -> (r: u64)
    requires
        off + 8 <= buf@.len(),
    ensures
        r == le64_at(buf@, off as int),
{
    let n = buf.len();
    assert(off + 8 <= n);
    (buf[off] as u64) | ((buf[off + 1] as u64) << 8) | ((buf[off + 2] as u64) << 16)
        | ((buf[off + 3] as u64) << 24) | ((buf[off + 4] as u64) << 32)
        | ((buf[off + 5] as u64) << 40) | ((buf[off + 6] as u64) << 48)
        | ((buf[off + 7] as u64) << 56)
}

/// The index of the first NUL byte at or after `off`, or `buf.len()` when
/// none follows; out-of-range offsets are handed back unchanged.
pub open spec fn str_end(buf: Seq<u8>, off: int) -> int
    decreases buf.len() - off,
{
    if off < 0 || off >= buf.len() {
        off
    } else if buf[off] == 0 {
        off
    } else {
        str_end(buf, off + 1)
    }
}

/// `off` addresses a NUL-terminated string fully contained in the buffer.
pub open spec fn string_ok(buf: Seq<u8>, off: int) -> bool {
    0 <= off < buf.len() && str_end(buf, off) < buf.len()
}

/// The string stored at `off`: the bytes from `off` up to (excluding) the
/// first NUL.
pub open spec fn string_at(buf: Seq<u8>, off: int) -> Seq<u8>
    recommends
        string_ok(buf, off),
{
    buf.subrange(off, str_end(buf, off))
}

/// `str_end` never runs backwards, never leaves the buffer (for in-range
/// starts), stops on a NUL, and skips no NUL on the way there.
pub proof fn lemma_str_end(buf: Seq<u8>, off: int)
    requires
        0 <= off <= buf.len(),
    ensures
        off <= str_end(buf, off) <= buf.len(),
        str_end(buf, off) < buf.len() ==> buf[str_end(buf, off)] == 0,
        forall|j: int| off <= j < str_end(buf, off) ==> buf[j] != 0,
    decreases buf.len() - off,
{
    if off < buf.len() && buf[off] != 0 {
        lemma_str_end(buf, off + 1);
    }
}

/// Reads the NUL-terminated string at `off`, or reports that the offset is
/// out of range or that no terminator lies inside the buffer.
pub fn trie_string(buf: &Vec<u8>, off: usize) -> (r: Result<Vec<u8>, HwdbError>)
    ensures
        match r {
            Ok(s) => string_ok(buf@, off as int) && s@ == string_at(buf@, off as int),
            Err(e) => e == HwdbError::Bounds && !string_ok(buf@, off as int),
        },
{
    if off >= buf.len() {
        return Err(HwdbError::Bounds);
    }
    let mut j: usize = off;
    while j < buf.len() && buf[j] != 0
        invariant
            off <= j <= buf@.len(),
            str_end(buf@, off as int) == str_end(buf@, j as int),
        decreases buf@.len() - j,
    {
        j = j + 1;
    }
    if j == buf.len() {
        proof {
            lemma_str_end(buf@, j as int);
        }
        return Err(HwdbError::Bounds);
    }
    assert(str_end(buf@, off as int) == j);
    let mut out: Vec<u8> = Vec::new();
    let mut k: usize = off;
    while k < j
        invariant
            off <= k <= j <= buf@.len(),
            out@ == buf@.subrange(off as int, k as int),
        decreases j - k,
    {
        out.push(buf[k]);
        proof {
            assert(out@ =~= buf@.subrange(off as int, k + 1));
        }
        k = k + 1;
    }
    Ok(out)
}

} // verus!
