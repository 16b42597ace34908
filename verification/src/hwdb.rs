//! The database handle: holds the validated header and the property list
//! that lookups fill.  The caller supplies the database bytes; reading
//! them off disk is outside this crate's concern.

use vstd::prelude::*;

use crate::entry::{entry_matches, TrieEntry};
use crate::error::HwdbError;
use crate::header::{header_valid, spec_header, TrieHeader, HEADER_SIZE};
use crate::list::{add_checked, prop_emits, UdevList};
use crate::records::spec_node_at;
use crate::search::{spec_search, trie_search};

verus! {

/// The byte span an entry stored at `off` occupies under the record sizes
/// `h` declares.
pub open spec fn spec_entry_span(buf: Seq<u8>, h: TrieHeader, off: int) -> int {
    h.node_size + spec_node_at(buf, off).children_count * h.child_entry_size + spec_node_at(
        buf,
        off,
    ).values_count * h.value_entry_size
}

/// The offsets of the consecutive entries a linear scan of the nodes
/// region visits, starting at `idx`: the scan stops at the region's end,
/// at the first entry that does not decode, and after an entry whose
/// declared span is not positive (which could not advance it).
pub open spec fn spec_node_offs(
    buf: Seq<u8>,
    h: TrieHeader,
    idx: int,
    nodes_len: int,
    fuel: nat,
) -> Seq<int>
    decreases fuel,
{
    if fuel == 0 {
        seq![]
    } else if idx >= nodes_len || !crate::entry::entry_decodable(buf, h, idx) {
        seq![]
    } else if spec_entry_span(buf, h, idx) <= 0 {
        seq![idx]
    } else {
        seq![idx] + spec_node_offs(
            buf,
            h,
            idx + spec_entry_span(buf, h, idx),
            nodes_len,
            (fuel - 1) as nat,
        )
    }
}

/// The on-disk hardware database: a validated header and the property
/// list the lookups fill.
///
/// One handle must not serve concurrent lookups: the property list it
/// owns is rewritten in place by every lookup.
#[derive(Debug)]
pub struct UdevHwdb {
    head: TrieHeader,
    properties_list: UdevList,
}

impl UdevHwdb {
    /// The validated header.
    pub closed spec fn spec_head(&self) -> TrieHeader {
        self.head
    }

    /// The properties the last lookup left in the list.
    pub closed spec fn spec_props(&self) -> Seq<(Seq<u8>, Seq<u8>)> {
        self.properties_list@
    }

    /// Creates a handle from the first bytes of the database file, of
    /// which exactly one header record is read and validated.
    ///
    /// Fails with [`HwdbError::Header`] when the bytes are shorter than
    /// one header record, carry the wrong signature, or declare a record
    /// size of zero.
    pub fn new(head_buf: &Vec<u8>) -> (r: Result<UdevHwdb, HwdbError>)
        ensures
            match r {
                Ok(db) => header_valid(head_buf@) && db.spec_head() == spec_header(head_buf@)
                    && db.spec_props() == Seq::<(Seq<u8>, Seq<u8>)>::empty(),
                Err(e) => e == HwdbError::Header && !header_valid(head_buf@),
            },
    {
        let head = match TrieHeader::parse(head_buf) {
            Ok(h) => h,
            Err(e) => {
                return Err(e);
            },
        };
        Ok(UdevHwdb { head, properties_list: UdevList::new() })
    }

    /// Gets a reference to the header.
    pub fn header(&self) -> (r: &TrieHeader)
        ensures
            *r == self.spec_head(),
    {
        &self.head
    }

    /// Looks up a modalias in the database snapshot `hwdb_buf` and fills
    /// the property list with every matching property in encounter order.
    ///
    /// The property list is cleared first, so earlier results are never
    /// observable.  On an error the properties emitted before it stays in
    /// the list, and the error itself tells what the walk met: a record or
    /// string read out of bounds, or a glob scratch line grown past its
    /// capacity.  A modalias that matches nothing is no error: the list is
    /// left empty.
    ///
    /// `flags` is reserved; any value is accepted and none changes
    /// behavior.
    pub fn get_properties_list_entry(
        &mut self,
        hwdb_buf: &Vec<u8>,
        modalias: &Vec<u8>,
        flags: u32,
    ) -> (r: Result<(), HwdbError>)
        ensures
            final(self).spec_head() == old(self).spec_head(),
            ({
                let res = spec_search(hwdb_buf@, old(self).spec_head(), modalias@);
                &&& final(self).spec_props() == res.0
                &&& match r {
                    Ok(()) => res.1 is None,
                    Err(e) => res.1 == Some(e),
                }
            }),
    {
        let _ = flags;
        self.properties_list.clear();
        proof {
            assert(self.properties_list@ =~= Seq::<(Seq<u8>, Seq<u8>)>::empty());
        }
        let r = trie_search(&mut self.properties_list, &self.head, hwdb_buf, modalias);
        proof {
            let res = spec_search(hwdb_buf@, old(self).spec_head(), modalias@);
            assert(self.properties_list@ =~= res.0);
        }
        r
    }

    /// Gets a reference to the property list.
    pub fn properties_list(&self) -> (r: &UdevList)
        ensures
            r@ == self.spec_props(),
    {
        &self.properties_list
    }

    /// Adds a key/value pair to the property list by hand, under the same
    /// leading-space rule the lookups follow.
    pub fn add_property(&mut self, key: &Vec<u8>, value: &Vec<u8>) -> (r: Result<(), HwdbError>)
        ensures
            r is Ok,
            final(self).spec_head() == old(self).spec_head(),
            final(self).spec_props() == old(self).spec_props() + prop_emits(key@, value@),
    {
        Self::_add_property(&mut self.properties_list, key, value)
    }

    /// Puts one key/value pair through the leading-space rule and into the
    /// given list.  This property list accepts every insertion, so the
    /// operation always succeeds.
    pub(crate) fn _add_property(list: &mut UdevList, key: &Vec<u8>, value: &Vec<u8>) -> (r: Result<
        (),
        HwdbError,
    >)
        ensures
            r is Ok,
            final(list)@ == old(list)@ + prop_emits(key@, value@),
    {
        add_checked(list, key, value);
        Ok(())
    }

    /// Scans the nodes region of an in-memory database linearly and
    /// assembles every entry it visits, in file order.  The scan follows
    /// the region bounds the header declares and stops early at the first
    /// entry that does not decode.
    #[verifier::rlimit(100)]
    pub fn parse_nodes(head: &TrieHeader, hwdb_buf: &Vec<u8>) -> (r: Vec<TrieEntry>)
        ensures
            ({
                let offs = spec_parse_nodes_offs(hwdb_buf@, *head);
                &&& r@.len() == offs.len()
                &&& forall|j: int|
                    0 <= j < offs.len() ==> entry_matches(
                        #[trigger] r@[j],
                        hwdb_buf@,
                        *head,
                        offs[j],
                    )
            }),
    {
        let ghost offs = spec_parse_nodes_offs(hwdb_buf@, *head);
        let mut out: Vec<TrieEntry> = Vec::new();
        let buf_len = hwdb_buf.len();
        if !(HEADER_SIZE < buf_len && head.nodes_len < (buf_len - HEADER_SIZE) as u64) {
            return out;
        }
        let nodes_len = head.nodes_len as usize;
        let mut idx: usize = HEADER_SIZE;
        let ghost mut done: Seq<int> = Seq::empty();
        let ghost mut fuel: nat = head.nodes_len as nat;
        loop
            invariant_except_break
                HEADER_SIZE <= idx,
                buf_len == hwdb_buf@.len(),
                HEADER_SIZE < buf_len,
                head.nodes_len < buf_len - HEADER_SIZE,
                nodes_len == head.nodes_len,
                offs == spec_parse_nodes_offs(hwdb_buf@, *head),
                out@.len() == done.len(),
                done.len() <= idx - HEADER_SIZE,
                fuel == head.nodes_len - done.len(),
                offs =~= done + spec_node_offs(
                    hwdb_buf@,
                    *head,
                    idx as int,
                    head.nodes_len as int,
                    fuel,
                ),
                forall|j: int|
                    0 <= j < done.len() ==> entry_matches(
                        #[trigger] out@[j],
                        hwdb_buf@,
                        *head,
                        done[j],
                    ),
            ensures
                offs =~= done,
                out@.len() == done.len(),
                forall|j: int|
                    0 <= j < done.len() ==> entry_matches(
                        #[trigger] out@[j],
                        hwdb_buf@,
                        *head,
                        done[j],
                    ),
            decreases head.nodes_len as int - done.len(),
        {
            if idx >= nodes_len {
                proof {
                    assert(spec_node_offs(
                        hwdb_buf@,
                        *head,
                        idx as int,
                        head.nodes_len as int,
                        fuel,
                    ) =~= Seq::<int>::empty());
                    assert(offs =~= done);
                }
                break;
            }
            proof {
                assert(fuel > 0);
            }
            let entry = match TrieEntry::parse(head, hwdb_buf, idx) {
                Ok(e) => e,
                Err(_) => {
                    proof {
                        assert(spec_node_offs(
                            hwdb_buf@,
                            *head,
                            idx as int,
                            head.nodes_len as int,
                            fuel,
                        ) =~= Seq::<int>::empty());
                        assert(offs =~= done);
                    }
                    break;
                },
            };
            let ghost span = spec_entry_span(hwdb_buf@, *head, idx as int);
            proof {
                crate::entry::lemma_sort_children(
                    crate::entry::spec_children_at(
                        hwdb_buf@,
                        *head,
                        crate::entry::children_base(*head, idx as int),
                        spec_node_at(hwdb_buf@, idx as int).children_count as int,
                    ),
                );
                assert(entry.spec_children().len() == spec_node_at(
                    hwdb_buf@,
                    idx as int,
                ).children_count);
                assert(entry.spec_values().len() == spec_node_at(
                    hwdb_buf@,
                    idx as int,
                ).values_count);
                assert(span >= 0) by (nonlinear_arith)
                    requires
                        span == spec_entry_span(hwdb_buf@, *head, idx as int),
                        spec_entry_span(hwdb_buf@, *head, idx as int) == head.node_size
                            + spec_node_at(hwdb_buf@, idx as int).children_count
                            * head.child_entry_size + spec_node_at(
                            hwdb_buf@,
                            idx as int,
                        ).values_count * head.value_entry_size,
                ;
            }
            let step = entry.len(head);
            proof {
                assert(crate::entry::spec_entry_len(*head, entry) == if span <= usize::MAX {
                    span
                } else {
                    usize::MAX as int
                });
            }
            out.push(entry);
            proof {
                done = done.push(idx as int);
            }
            if step == 0 {
                proof {
                    assert(span == 0);
                    assert(spec_node_offs(
                        hwdb_buf@,
                        *head,
                        idx as int,
                        head.nodes_len as int,
                        fuel,
                    ) =~= seq![idx as int]);
                    assert(offs =~= done);
                }
                break;
            }
            if step >= nodes_len - idx {
                proof {
                    assert(idx + span >= head.nodes_len);
                    assert(spec_node_offs(
                        hwdb_buf@,
                        *head,
                        idx + span,
                        head.nodes_len as int,
                        (fuel - 1) as nat,
                    ) =~= Seq::<int>::empty());
                    assert(spec_node_offs(
                        hwdb_buf@,
                        *head,
                        idx as int,
                        head.nodes_len as int,
                        fuel,
                    ) =~= seq![idx as int]);
                    assert(offs =~= done);
                }
                break;
            }
            proof {
                assert(span == step);
                assert(spec_node_offs(
                    hwdb_buf@,
                    *head,
                    idx as int,
                    head.nodes_len as int,
                    fuel,
                ) =~= seq![idx as int] + spec_node_offs(
                    hwdb_buf@,
                    *head,
                    idx + span,
                    head.nodes_len as int,
                    (fuel - 1) as nat,
                ));
                fuel = (fuel - 1) as nat;
            }
            idx = idx + step;
            proof {
                assert(offs =~= done + spec_node_offs(
                    hwdb_buf@,
                    *head,
                    idx as int,
                    head.nodes_len as int,
                    fuel,
                ));
            }
        }
        out
    }
}

/// The offsets [`UdevHwdb::parse_nodes`] visits on the given database:
/// empty unless the header-declared nodes region lies inside the buffer,
/// and otherwise the linear scan from the end of the header.
pub open spec fn spec_parse_nodes_offs(buf: Seq<u8>, h: TrieHeader) -> Seq<int> {
    if HEADER_SIZE < buf.len() && HEADER_SIZE + h.nodes_len < buf.len() {
        spec_node_offs(buf, h, HEADER_SIZE as int, h.nodes_len as int, h.nodes_len as nat)
    } else {
        seq![]
    }
}

} // verus!
