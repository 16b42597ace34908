use vstd::prelude::*;

verus! {

/// The error kinds the database code can surface.
///
/// Structural errors (`Header`, `Bounds`, `LineOverflow`) abort the whole
/// operation that met them; a query that merely matches nothing is not an
/// error and yields an empty property list instead.
#[derive(Clone, Copy, Debug, PartialEq, Eq, Structural)]
pub enum HwdbError {
    /// No candidate database path could be opened.
    NotFound,
    /// Opening a database file failed with an error other than
    /// "file not present".
    Open,
    /// The file header is short, carries the wrong signature, or declares a
    /// zero record size.
    Header,
    /// A record or string decode would read past the end of the buffer, or
    /// an offset lies outside the file.
    Bounds,
    /// The fixed-capacity glob scratch line would have to grow beyond its
    /// capacity (only a malformed trie can force this).
    LineOverflow,
    /// The property list rejected an insertion.
    AddProperty,
    /// Catch-all wrapper for lookup-time failures outside the trie walk
    /// itself, such as re-reading the file.
    Lookup,
}

} // verus!
