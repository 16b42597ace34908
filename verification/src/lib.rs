//! Read-only lookup against a compiled hardware identification database
//! ("hwdb"): a binary file holding a compressed trie whose edge labels and
//! node prefixes may contain glob metacharacters (`*`, `?`, `[...]`), and
//! whose terminal nodes carry property key/value records.
//!
//! Given a device modalias string, the searcher walks the trie, honoring
//! literal prefixes and glob edges, and collects every matching property
//! into the handle's property list in encounter order.
//!
//! The whole file is treated as an untrusted byte buffer: every record
//! decode is bounds-checked, and a malformed file yields an error rather
//! than a panic or an out-of-range read.

use vstd::prelude::*;

mod bytes;
mod entry;
mod error;
mod glob;
mod header;
mod line;
mod list;
mod hwdb;
mod records;
mod search;

pub use crate::bytes::trie_string;
pub use crate::entry::TrieEntry;
pub use crate::error::HwdbError;
pub use crate::hwdb::UdevHwdb;
pub use crate::header::{TrieHeader, HEADER_SIZE};
pub use crate::line::{LineBuf, LINE_MAX};
pub use crate::list::{UdevEntry, UdevList};
pub use crate::records::{child_entry_size, node_size, value_entry_size};
pub use crate::records::{TrieChildEntry, TrieNode, TrieValueEntry};
