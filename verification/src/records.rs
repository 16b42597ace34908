//! Fixed-width record decoders: nodes, child edges and value entries, each
//! read at a caller-supplied offset with the record size the header
//! declares and with full bounds checking.

use vstd::prelude::*;

use crate::bytes::{le64_at, read_le64};
use crate::error::HwdbError;
use crate::header::TrieHeader;

verus! {

/// The built-in size of a node record, and the span of the fields a node
/// decode reads.
pub const NODE_FIELDS_SIZE: usize = 24;

/// The built-in size of a child-edge record, and the span of the fields a
/// child decode reads.
pub const CHILD_FIELDS_SIZE: usize = 16;

/// The built-in size of a value record; its decoded fields span only the
/// first [`VALUE_FIELDS_SIZE`] bytes, the rest is reserved metadata the
/// searcher does not interpret.
pub const VALUE_RECORD_SIZE: usize = 32;

/// The span of the fields a value decode reads.
pub const VALUE_FIELDS_SIZE: usize = 16;

/// The node record size a database uses when no header has declared
/// another one.
pub fn node_size() -> (r: usize)
    ensures
        r == NODE_FIELDS_SIZE,
{
    NODE_FIELDS_SIZE
}

/// The child-edge record size a database uses when no header has declared
/// another one.
pub fn child_entry_size() -> (r: usize)
    ensures
        r == CHILD_FIELDS_SIZE,
{
    CHILD_FIELDS_SIZE
}

/// The value record size a database uses when no header has declared
/// another one.
pub fn value_entry_size() -> (r: usize)
    ensures
        r == VALUE_RECORD_SIZE,
{
    VALUE_RECORD_SIZE
}

/// A trie node: a compressed literal prefix plus the counts of the child
/// and value records that follow it contiguously in the file.
#[derive(Clone, Copy, Debug, PartialEq, Eq, Structural)]
pub struct TrieNode {
    /// String-pool offset of the node's literal prefix; 0 means no prefix.
    pub prefix_off: u64,
    /// Number of child-edge records following the node record.
    pub children_count: u8,
    /// Number of value records following the child-edge records.
    pub values_count: u64,
}

/// A child edge: a one-byte label (a literal byte or one of `*`, `?`, `[`)
/// and the file offset of the destination node.
#[derive(Clone, Copy, Debug, PartialEq, Eq, Structural)]
pub struct TrieChildEntry {
    /// The edge label.
    pub c: u8,
    /// File offset of the destination node record.
    pub child_off: u64,
}

/// A value record: string-pool offsets of a NUL-terminated property key
/// and value.
#[derive(Clone, Copy, Debug, PartialEq, Eq, Structural)]
pub struct TrieValueEntry {
    /// String-pool offset of the property key.
    pub key_off: u64,
    /// String-pool offset of the property value.
    pub value_off: u64,
}

impl TrieNode {
    /// An empty node: no prefix, no children, no values.
    pub fn new() -> (r: TrieNode)
        ensures
            r == (TrieNode { prefix_off: 0, children_count: 0, values_count: 0 }),
    {
        TrieNode { prefix_off: 0, children_count: 0, values_count: 0 }
    }
}

/// Both the declared record size and the decoded field span fit between
/// `off` and the end of the buffer.
pub open spec fn record_decodable(buf: Seq<u8>, record_size: u64, fields: int, off: int) -> bool {
    &&& 0 <= off
    &&& off + record_size <= buf.len()
    &&& off + fields <= buf.len()
}

/// Checks that a record of `record_size` declared bytes whose decoded
/// fields span `fields` bytes lies fully inside the buffer at `off`.
fn check_record(buf: &Vec<u8>, record_size: u64, fields: usize, off: usize) -> (r: bool)
    ensures
        r == record_decodable(buf@, record_size, fields as int, off as int),
{
    let len = buf.len();
    off <= len && record_size <= ((len - off) as u64) && fields <= len - off
}

/// The node record decoded at `off`.
pub open spec fn spec_node_at(buf: Seq<u8>, off: int) -> TrieNode {
    TrieNode {
        prefix_off: le64_at(buf, off),
        children_count: buf[off + 8],
        values_count: le64_at(buf, off + 16),
    }
}

/// A node record fits at `off`.
pub open spec fn node_decodable(buf: Seq<u8>, h: TrieHeader, off: int) -> bool {
    record_decodable(buf, h.node_size, NODE_FIELDS_SIZE as int, off)
}

/// Decodes the node record at `off`, using the header-declared node size
/// for the bounds check; fails with [`HwdbError::Bounds`] when the record
/// would run past the buffer.
pub fn decode_node(h: &TrieHeader, buf: &Vec<u8>, off: usize) -> (r: Result<TrieNode, HwdbError>)
    ensures
        match r {
            Ok(n) => node_decodable(buf@, *h, off as int) && n == spec_node_at(buf@, off as int),
            Err(e) => e == HwdbError::Bounds && !node_decodable(buf@, *h, off as int),
        },
{
    if !check_record(buf, h.node_size, NODE_FIELDS_SIZE, off) {
        return Err(HwdbError::Bounds);
    }
    let len = buf.len();
    assert(off + NODE_FIELDS_SIZE <= len);
    Ok(TrieNode {
        prefix_off: read_le64(buf, off),
        children_count: buf[off + 8],
        values_count: read_le64(buf, off + 16),
    })
}

/// The child-edge record decoded at `off`; the padding between the label
/// and the destination offset is ignored.
pub open spec fn spec_child_at(buf: Seq<u8>, off: int) -> TrieChildEntry {
    TrieChildEntry { c: buf[off], child_off: le64_at(buf, off + 8) }
}

/// A child-edge record fits at `off`.
pub open spec fn child_decodable(buf: Seq<u8>, h: TrieHeader, off: int) -> bool {
    record_decodable(buf, h.child_entry_size, CHILD_FIELDS_SIZE as int, off)
}

/// Decodes the child-edge record at `off`, using the header-declared child
/// size for the bounds check.
pub fn decode_child(h: &TrieHeader, buf: &Vec<u8>, off: usize) -> (r: Result<
    TrieChildEntry,
    HwdbError,
>)
    ensures
        match r {
            Ok(c) => child_decodable(buf@, *h, off as int) && c == spec_child_at(
                buf@,
                off as int,
            ),
            Err(e) => e == HwdbError::Bounds && !child_decodable(buf@, *h, off as int),
        },
{
    if !check_record(buf, h.child_entry_size, CHILD_FIELDS_SIZE, off) {
        return Err(HwdbError::Bounds);
    }
    let len = buf.len();
    assert(off + CHILD_FIELDS_SIZE <= len);
    Ok(TrieChildEntry { c: buf[off], child_off: read_le64(buf, off + 8) })
}

/// The value record decoded at `off`; the reserved trailing bytes are
/// ignored.
pub open spec fn spec_value_at(buf: Seq<u8>, off: int) -> TrieValueEntry {
    TrieValueEntry { key_off: le64_at(buf, off), value_off: le64_at(buf, off + 8) }
}

/// A value record fits at `off`.
pub open spec fn value_decodable(buf: Seq<u8>, h: TrieHeader, off: int) -> bool {
    record_decodable(buf, h.value_entry_size, VALUE_FIELDS_SIZE as int, off)
}

/// Decodes the value record at `off`, using the header-declared value size
/// for the bounds check.
pub fn decode_value(h: &TrieHeader, buf: &Vec<u8>, off: usize) -> (r: Result<
    TrieValueEntry,
    HwdbError,
>)
    ensures
        match r {
            Ok(v) => value_decodable(buf@, *h, off as int) && v == spec_value_at(
                buf@,
                off as int,
            ),
            Err(e) => e == HwdbError::Bounds && !value_decodable(buf@, *h, off as int),
        },
{
    if !check_record(buf, h.value_entry_size, VALUE_FIELDS_SIZE, off) {
        return Err(HwdbError::Bounds);
    }
    let len = buf.len();
    assert(off + VALUE_FIELDS_SIZE <= len);
    Ok(TrieValueEntry { key_off: read_le64(buf, off), value_off: read_le64(buf, off + 8) })
}

} // verus!
