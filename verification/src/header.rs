//! The fixed-size file header at offset 0: magic signature, structural
//! sizes, and the offset of the root node.

use vstd::prelude::*;

use crate::bytes::le64_at;
use crate::error::HwdbError;

verus! {

/// The number of bytes the on-disk header occupies: an 8-byte signature
/// followed by nine 64-bit little-endian fields.
pub const HEADER_SIZE: usize = 80;

/// The decoded file header.
///
/// A newer encoder may grow the node, child and value records, so their
/// sizes are declared here and every record decoder honors the declared
/// size rather than a hard-coded one.
#[derive(Clone, Copy, Debug, PartialEq, Eq, Structural)]
pub struct TrieHeader {
    /// Encoder version; informational.
    pub tool_version: u64,
    /// Total file length in bytes, as the encoder recorded it.
    pub file_size: u64,
    /// Size of the header record.
    pub header_size: u64,
    /// Size of each node record.
    pub node_size: u64,
    /// Size of each child-edge record.
    pub child_entry_size: u64,
    /// Size of each value record.
    pub value_entry_size: u64,
    /// Length of the string pool region.
    pub strings_len: u64,
    /// Length of the nodes region.
    pub nodes_len: u64,
    /// File offset of the root node.
    pub nodes_root_off: u64,
}

/// The ASCII bytes of the hwdb magic `KSLPHHRH`.
pub const SIG_BYTE_0: u8 = 75;

pub const SIG_BYTE_1: u8 = 83;

pub const SIG_BYTE_2: u8 = 76;

pub const SIG_BYTE_3: u8 = 80;

pub const SIG_BYTE_4: u8 = 72;

pub const SIG_BYTE_5: u8 = 72;

pub const SIG_BYTE_6: u8 = 82;

pub const SIG_BYTE_7: u8 = 72;

/// The first eight bytes of `buf` carry the hwdb magic `KSLPHHRH`.
pub open spec fn signature_ok(buf: Seq<u8>) -> bool {
    buf.len() >= 8 && buf[0] == SIG_BYTE_0 && buf[1] == SIG_BYTE_1 && buf[2] == SIG_BYTE_2
        && buf[3] == SIG_BYTE_3 && buf[4] == SIG_BYTE_4 && buf[5] == SIG_BYTE_5
        && buf[6] == SIG_BYTE_6 && buf[7] == SIG_BYTE_7
}

/// The header decoded from the start of `buf`, field by field.
pub open spec fn spec_header(buf: Seq<u8>) -> TrieHeader
    recommends
        buf.len() >= HEADER_SIZE,
{
    TrieHeader {
        tool_version: le64_at(buf, 8),
        file_size: le64_at(buf, 16),
        header_size: le64_at(buf, 24),
        node_size: le64_at(buf, 32),
        child_entry_size: le64_at(buf, 40),
        value_entry_size: le64_at(buf, 48),
        strings_len: le64_at(buf, 56),
        nodes_len: le64_at(buf, 64),
        nodes_root_off: le64_at(buf, 72),
    }
}

/// `buf` starts with a valid header: long enough, right signature, and no
/// declared size of zero.
pub open spec fn header_valid(buf: Seq<u8>) -> bool {
    &&& buf.len() >= HEADER_SIZE
    &&& signature_ok(buf)
    &&& spec_header(buf).header_size != 0
    &&& spec_header(buf).node_size != 0
    &&& spec_header(buf).child_entry_size != 0
    &&& spec_header(buf).value_entry_size != 0
}

impl TrieHeader {
    /// Decodes and validates the header at the start of `buf`.
    ///
    /// Fails with [`HwdbError::Header`] when the buffer is shorter than one
    /// header record, the signature is wrong, or a declared record size is
    /// zero.
    pub fn parse(buf: &Vec<u8>) -> (r: Result<TrieHeader, HwdbError>)
        ensures
            match r {
                Ok(h) => header_valid(buf@) && h == spec_header(buf@),
                Err(e) => e == HwdbError::Header && !header_valid(buf@),
            },
    {
        if buf.len() < HEADER_SIZE {
            return Err(HwdbError::Header);
        }
        if !(buf[0] == SIG_BYTE_0 && buf[1] == SIG_BYTE_1 && buf[2] == SIG_BYTE_2
            && buf[3] == SIG_BYTE_3 && buf[4] == SIG_BYTE_4 && buf[5] == SIG_BYTE_5
            && buf[6] == SIG_BYTE_6 && buf[7] == SIG_BYTE_7) {
            return Err(HwdbError::Header);
        }
        let h = TrieHeader {
            tool_version: crate::bytes::read_le64(buf, 8),
            file_size: crate::bytes::read_le64(buf, 16),
            header_size: crate::bytes::read_le64(buf, 24),
            node_size: crate::bytes::read_le64(buf, 32),
            child_entry_size: crate::bytes::read_le64(buf, 40),
            value_entry_size: crate::bytes::read_le64(buf, 48),
            strings_len: crate::bytes::read_le64(buf, 56),
            nodes_len: crate::bytes::read_le64(buf, 64),
            nodes_root_off: crate::bytes::read_le64(buf, 72),
        };
        if h.header_size == 0 || h.node_size == 0 || h.child_entry_size == 0
            || h.value_entry_size == 0 {
            return Err(HwdbError::Header);
        }
        Ok(h)
    }
}

} // verus!
