//! The trie entry assembler: from a node offset, materialize the node, its
//! child-edge table (sorted ascending by edge label) and its value table,
//! with the whole byte range bounds-checked against the buffer.

use vstd::prelude::*;

use crate::error::HwdbError;
use crate::header::TrieHeader;
use crate::records::{
    child_decodable, decode_child, decode_node, decode_value, node_decodable, spec_child_at,
    spec_node_at, spec_value_at, value_decodable, TrieChildEntry, TrieNode, TrieValueEntry,
};

verus! {

/// The child-edge records decoded from `count` consecutive slots starting
/// at `base`, in stored order.
pub open spec fn spec_children_at(
    buf: Seq<u8>,
    h: TrieHeader,
    base: int,
    count: int,
) -> Seq<TrieChildEntry> {
    Seq::new(count as nat, |k: int| spec_child_at(buf, base + k * h.child_entry_size))
}

/// Every one of `count` consecutive child-edge records starting at `base`
/// lies inside the buffer.
pub open spec fn children_decodable(buf: Seq<u8>, h: TrieHeader, base: int, count: int) -> bool {
    forall|k: int|
        0 <= k < count ==> #[trigger] child_decodable(buf, h, base + k * h.child_entry_size)
}

/// The value records decoded from `count` consecutive slots starting at
/// `base`, in stored order.
pub open spec fn spec_values_at(
    buf: Seq<u8>,
    h: TrieHeader,
    base: int,
    count: int,
) -> Seq<TrieValueEntry> {
    Seq::new(count as nat, |k: int| spec_value_at(buf, base + k * h.value_entry_size))
}

/// Every one of `count` consecutive value records starting at `base` lies
/// inside the buffer.
pub open spec fn values_decodable(buf: Seq<u8>, h: TrieHeader, base: int, count: int) -> bool {
    forall|k: int|
        0 <= k < count ==> #[trigger] value_decodable(buf, h, base + k * h.value_entry_size)
}

/// Where a node's child table starts: right after the node record.
pub open spec fn children_base(h: TrieHeader, off: int) -> int {
    off + h.node_size
}

/// Where a node's value table starts: right after its child table.
pub open spec fn values_base(buf: Seq<u8>, h: TrieHeader, off: int) -> int {
    children_base(h, off) + spec_node_at(buf, off).children_count * h.child_entry_size
}

/// The node record at `off` and every child and value record following it
/// lie inside the buffer.
pub open spec fn entry_decodable(buf: Seq<u8>, h: TrieHeader, off: int) -> bool {
    &&& node_decodable(buf, h, off)
    &&& children_decodable(
        buf,
        h,
        children_base(h, off),
        spec_node_at(buf, off).children_count as int,
    )
    &&& values_decodable(
        buf,
        h,
        values_base(buf, h, off),
        spec_node_at(buf, off).values_count as int,
    )
}

/// Child edges are in ascending label order.
pub open spec fn children_sorted(s: Seq<TrieChildEntry>) -> bool {
    forall|i: int, j: int| 0 <= i < j < s.len() ==> s[i].c <= s[j].c
}

/// `x` placed into `s` after every entry whose label does not exceed
/// `x.c` (so equal labels keep their stored order).
pub open spec fn insert_sorted(s: Seq<TrieChildEntry>, x: TrieChildEntry) -> Seq<TrieChildEntry>
    decreases s.len(),
{
    if s.len() == 0 {
        seq![x]
    } else if s[0].c <= x.c {
        seq![s[0]] + insert_sorted(s.skip(1), x)
    } else {
        seq![x] + s
    }
}

/// Stable insertion sort of a child table by edge label.
pub open spec fn sort_children(s: Seq<TrieChildEntry>) -> Seq<TrieChildEntry>
    decreases s.len(),
{
    if s.len() == 0 {
        Seq::empty()
    } else {
        insert_sorted(sort_children(s.drop_last()), s.last())
    }
}

/// Inserting keeps a sorted table sorted.
pub proof fn lemma_insert_sorted_sorted(s: Seq<TrieChildEntry>, x: TrieChildEntry)
    requires
        children_sorted(s),
    ensures
        children_sorted(insert_sorted(s, x)),
        insert_sorted(s, x).len() == s.len() + 1,
        insert_sorted(s, x).to_multiset() == s.to_multiset().insert(x),
    decreases s.len(),
{
    broadcast use vstd::seq_lib::group_to_multiset_ensures;

    if s.len() == 0 {
        assert(seq![x] =~= s.insert(0, x));
        assert(s.insert(0, x).to_multiset() == s.to_multiset().insert(x));
    } else if s[0].c <= x.c {
        assert(children_sorted(s.skip(1)));
        lemma_insert_sorted_sorted(s.skip(1), x);
        let t = insert_sorted(s.skip(1), x);
        let r = seq![s[0]] + t;
        assert forall|i: int, j: int| 0 <= i < j < r.len() implies r[i].c <= r[j].c by {
            if i == 0 {
                assert(t[j - 1] == r[j]);
                lemma_insert_sorted_member(s.skip(1), x, j - 1);
            } else {
                assert(r[i] == t[i - 1] && r[j] == t[j - 1]);
            }
        }
        assert(r =~= t.insert(0, s[0]));
        assert(t.insert(0, s[0]).to_multiset() == t.to_multiset().insert(s[0]));
        assert(s.remove(0).to_multiset() == s.to_multiset().remove(s[0]));
        assert(s.remove(0) =~= s.skip(1));
        assert(s.contains(s[0]));
        assert(s.to_multiset().count(s[0]) > 0);
        assert(r.to_multiset() =~= s.to_multiset().insert(x));
    } else {
        let r = seq![x] + s;
        assert(forall|j: int| 0 < j < r.len() ==> r[j] == s[j - 1]);
        assert(r =~= s.insert(0, x));
        assert(s.insert(0, x).to_multiset() == s.to_multiset().insert(x));
    }
}

/// Every entry of an insertion result is the inserted one or one of the
/// original entries; in particular its label is `x.c` or an original label.
pub proof fn lemma_insert_sorted_member(s: Seq<TrieChildEntry>, x: TrieChildEntry, i: int)
    requires
        0 <= i < insert_sorted(s, x).len(),
    ensures
        insert_sorted(s, x)[i] == x || s.contains(insert_sorted(s, x)[i]),
    decreases s.len(),
{
    if s.len() == 0 {
    } else if s[0].c <= x.c {
        if i > 0 {
            lemma_insert_sorted_member(s.skip(1), x, i - 1);
            if s.skip(1).contains(insert_sorted(s.skip(1), x)[i - 1]) {
                let w = choose|k: int|
                    0 <= k < s.skip(1).len() && s.skip(1)[k] == insert_sorted(s.skip(1), x)[i - 1];
                assert(s[w + 1] == insert_sorted(s, x)[i]);
            }
        }
    } else {
        if i > 0 {
            assert(insert_sorted(s, x)[i] == s[i - 1]);
        }
    }
}

/// The sorted table holds exactly the stored edges, in ascending label
/// order.
pub proof fn lemma_sort_children(s: Seq<TrieChildEntry>)
    ensures
        children_sorted(sort_children(s)),
        sort_children(s).len() == s.len(),
        sort_children(s).to_multiset() == s.to_multiset(),
    decreases s.len(),
{
    broadcast use vstd::seq_lib::group_to_multiset_ensures;

    if s.len() == 0 {
    } else {
        lemma_sort_children(s.drop_last());
        lemma_insert_sorted_sorted(sort_children(s.drop_last()), s.last());
        assert(s =~= s.drop_last().push(s.last()));
        assert(s.drop_last().push(s.last()).to_multiset() == s.drop_last().to_multiset().insert(
            s.last(),
        ));
    }
}

/// The first stored child edge carrying label `c`, if any.
pub open spec fn spec_find_child(s: Seq<TrieChildEntry>, c: u8) -> Option<TrieChildEntry>
    decreases s.len(),
{
    if s.len() == 0 {
        None
    } else if s[0].c == c {
        Some(s[0])
    } else {
        spec_find_child(s.skip(1), c)
    }
}

/// Inserts `x` into the sorted vector `v`, after any equal labels.
fn insert_child(v: &mut Vec<TrieChildEntry>, x: TrieChildEntry)
    ensures
        final(v)@ == insert_sorted(old(v)@, x),
{
    let mut pos: usize = 0;
    while pos < v.len() && v[pos].c <= x.c
        invariant
            0 <= pos <= v@.len(),
            forall|k: int| 0 <= k < pos ==> v@[k].c <= x.c,
        decreases v@.len() - pos,
    {
        pos = pos + 1;
    }
    proof {
        lemma_insert_sorted_at(v@, x, pos as int);
    }
    v.insert(pos, x);
}

/// Inserting at the first position whose label exceeds the new one is what
/// [`insert_sorted`] denotes.
proof fn lemma_insert_sorted_at(s: Seq<TrieChildEntry>, x: TrieChildEntry, pos: int)
    requires
        0 <= pos <= s.len(),
        forall|k: int| 0 <= k < pos ==> s[k].c <= x.c,
        pos < s.len() ==> s[pos].c > x.c,
    ensures
        insert_sorted(s, x) == s.insert(pos, x),
    decreases s.len(),
{
    if s.len() == 0 {
        assert(insert_sorted(s, x) =~= s.insert(0, x));
    } else if s[0].c <= x.c {
        assert(pos >= 1);
        lemma_insert_sorted_at(s.skip(1), x, pos - 1);
        assert(seq![s[0]] + s.skip(1).insert(pos - 1, x) =~= s.insert(pos, x));
    } else {
        assert(pos == 0);
        assert(seq![x] + s =~= s.insert(0, x));
    }
}

/// One assembled trie entry: the node, its sorted child-edge table and its
/// value table, all synthesized from the buffer on demand.
#[derive(Clone, Debug)]
pub struct TrieEntry {
    node: TrieNode,
    children: Vec<TrieChildEntry>,
    values: Vec<TrieValueEntry>,
}

/// `e` is exactly the entry stored at `off`: the node record, the child
/// table sorted by label, and the value table in stored order.
pub open spec fn entry_matches(e: TrieEntry, buf: Seq<u8>, h: TrieHeader, off: int) -> bool {
    &&& e.spec_node() == spec_node_at(buf, off)
    &&& e.spec_children() == sort_children(
        spec_children_at(buf, h, children_base(h, off), spec_node_at(buf, off).children_count as int),
    )
    &&& e.spec_values() == spec_values_at(
        buf,
        h,
        values_base(buf, h, off),
        spec_node_at(buf, off).values_count as int,
    )
}

impl TrieEntry {
    /// The node record.
    pub closed spec fn spec_node(&self) -> TrieNode {
        self.node
    }

    /// The child-edge table.
    pub closed spec fn spec_children(&self) -> Seq<TrieChildEntry> {
        self.children@
    }

    /// The value table.
    pub closed spec fn spec_values(&self) -> Seq<TrieValueEntry> {
        self.values@
    }

    /// An empty entry: a zeroed node with no children and no values.
    pub fn new() -> (r: TrieEntry)
        ensures
            r.spec_node() == (TrieNode { prefix_off: 0, children_count: 0, values_count: 0 }),
            r.spec_children() =~= Seq::<TrieChildEntry>::empty(),
            r.spec_values() =~= Seq::<TrieValueEntry>::empty(),
    {
        TrieEntry { node: TrieNode::new(), children: Vec::new(), values: Vec::new() }
    }

    /// Gets a reference to the node record.
    pub fn node(&self) -> (r: &TrieNode)
        ensures
            *r == self.spec_node(),
    {
        &self.node
    }

    /// Gets a reference to the sorted child-edge table.
    pub fn children(&self) -> (r: &Vec<TrieChildEntry>)
        ensures
            r@ == self.spec_children(),
    {
        &self.children
    }

    /// Gets a reference to the value table.
    pub fn values(&self) -> (r: &Vec<TrieValueEntry>)
        ensures
            r@ == self.spec_values(),
    {
        &self.values
    }

    /// The total number of file bytes the entry occupies under the record
    /// sizes `h` declares, saturated at `usize::MAX`.
    pub fn len(&self, h: &TrieHeader) -> (r: usize)
        ensures
            r == spec_entry_len(*h, *self),
    {
        let cl = self.children.len();
        let vl = self.values.len();
        proof {
            assert((cl as int) * (h.child_entry_size as int) <= 0xFFFF_FFFF_FFFF_FFFF
                * 0xFFFF_FFFF_FFFF_FFFF && (vl as int) * (h.value_entry_size as int)
                <= 0xFFFF_FFFF_FFFF_FFFF * 0xFFFF_FFFF_FFFF_FFFF) by (nonlinear_arith)
                requires
                    cl as int <= 0xFFFF_FFFF_FFFF_FFFF,
                    vl as int <= 0xFFFF_FFFF_FFFF_FFFF,
                    h.child_entry_size as int <= 0xFFFF_FFFF_FFFF_FFFF,
                    h.value_entry_size as int <= 0xFFFF_FFFF_FFFF_FFFF,
            ;
        }
        let a = (cl as u128) * (h.child_entry_size as u128);
        let b = (vl as u128) * (h.value_entry_size as u128);
        let m = usize::MAX as u128;
        if a > m || b > m {
            return usize::MAX;
        }
        let s = (h.node_size as u128) + a + b;
        if s > m {
            usize::MAX
        } else {
            s as usize
        }
    }

    /// The first child edge labelled `c`, if the node has one.
    pub(crate) fn find_child(&self, c: u8) -> (r: Option<TrieChildEntry>)
        ensures
            r == spec_find_child(self.spec_children(), c),
    {
        proof {
            assert(self.children@.skip(0) =~= self.children@);
        }
        let mut i: usize = 0;
        while i < self.children.len()
            invariant
                0 <= i <= self.children@.len(),
                spec_find_child(self.children@, c) == spec_find_child(
                    self.children@.skip(i as int),
                    c,
                ),
            decreases self.children@.len() - i,
        {
            if self.children[i].c == c {
                proof {
                    assert(self.children@.skip(i as int)[0] == self.children@[i as int]);
                }
                return Some(self.children[i]);
            }
            proof {
                assert(self.children@.skip(i as int).skip(1) =~= self.children@.skip(i + 1));
            }
            i = i + 1;
        }
        proof {
            assert(self.children@.skip(self.children@.len() as int) =~= Seq::<
                TrieChildEntry,
            >::empty());
        }
        None
    }

    /// Assembles the trie entry stored at `off`: the node record, then its
    /// `children_count` child-edge records, then its `values_count` value
    /// records, each bounds-checked; the child table is then sorted
    /// ascending by edge label.
    ///
    /// Fails with [`HwdbError::Bounds`] when any of those records runs past
    /// the end of the buffer.
    #[verifier::loop_isolation(false)]
    pub fn parse(h: &TrieHeader, buf: &Vec<u8>, off: usize) -> (r: Result<TrieEntry, HwdbError>)
        ensures
            match r {
                Ok(e) => entry_decodable(buf@, *h, off as int) && entry_matches(
                    e,
                    buf@,
                    *h,
                    off as int,
                ),
                Err(err) => err == HwdbError::Bounds && !entry_decodable(buf@, *h, off as int),
            },
    {
        let node = match decode_node(h, buf, off) {
            Ok(n) => n,
            Err(e) => {
                return Err(e);
            },
        };
        let buf_len = buf.len();
        let nsz = h.node_size as usize;
        let cbase = off + nsz;

        let cc = node.children_count as usize;
        let mut raw_children: Vec<TrieChildEntry> = Vec::new();
        let mut idx: usize = cbase;
        let mut k: usize = 0;
        while k < cc
            invariant
                0 <= k <= cc,
                idx == off + h.node_size + k * h.child_entry_size,
                idx <= buf_len,
                raw_children@ == spec_children_at(buf@, *h, cbase as int, k as int),
                forall|j: int|
                    0 <= j < k ==> #[trigger] child_decodable(
                        buf@,
                        *h,
                        off + h.node_size + j * h.child_entry_size,
                    ),
            decreases cc - k,
        {
            let child = match decode_child(h, buf, idx) {
                Ok(c) => c,
                Err(e) => {
                    proof {
                        assert(!child_decodable(
                            buf@,
                            *h,
                            off + h.node_size + (k as int) * h.child_entry_size,
                        ));
                    }
                    return Err(e);
                },
            };
            raw_children.push(child);
            proof {
                assert((k + 1) * (h.child_entry_size as int) == k * (h.child_entry_size as int)
                    + h.child_entry_size as int) by (nonlinear_arith);
                assert(raw_children@ =~= spec_children_at(buf@, *h, cbase as int, k + 1));
            }
            idx = idx + (h.child_entry_size as usize);
            k = k + 1;
        }

        let vc = node.values_count;
        let mut values: Vec<TrieValueEntry> = Vec::new();
        let vbase = idx;
        let mut v: u64 = 0;
        while v < vc
            invariant
                0 <= v <= vc,
                idx == vbase + v * h.value_entry_size,
                idx <= buf_len,
                vbase == values_base(buf@, *h, off as int),
                values@ == spec_values_at(buf@, *h, vbase as int, v as int),
                forall|j: int|
                    0 <= j < v ==> #[trigger] value_decodable(
                        buf@,
                        *h,
                        vbase + j * h.value_entry_size,
                    ),
            decreases vc - v,
        {
            let value = match decode_value(h, buf, idx) {
                Ok(w) => w,
                Err(e) => {
                    proof {
                        assert(!value_decodable(
                            buf@,
                            *h,
                            vbase + (v as int) * h.value_entry_size,
                        ));
                    }
                    return Err(e);
                },
            };
            values.push(value);
            proof {
                assert((v + 1) * (h.value_entry_size as int) == v * (h.value_entry_size as int)
                    + h.value_entry_size as int) by (nonlinear_arith);
                assert(values@ =~= spec_values_at(buf@, *h, vbase as int, v + 1));
            }
            idx = idx + (h.value_entry_size as usize);
            v = v + 1;
        }

        let children = sort_children_vec(raw_children);
        Ok(TrieEntry { node, children, values })
    }

    /// Looks up the child edge labelled `c` and assembles the entry at its
    /// destination offset.
    ///
    /// Returns `None` when the node has no such edge, and also when the
    /// destination offset lies outside the buffer or the entry there does
    /// not decode; a caller that must tell those cases apart assembles the
    /// destination itself.
    pub fn lookup_child(&self, h: &TrieHeader, buf: &Vec<u8>, c: u8) -> (r: Option<TrieEntry>)
        ensures
            ({
                let f = spec_find_child(self.spec_children(), c);
                match r {
                    Some(e) => f matches Some(ch) && ch.child_off < buf@.len()
                        && entry_decodable(buf@, *h, ch.child_off as int) && entry_matches(
                        e,
                        buf@,
                        *h,
                        ch.child_off as int,
                    ),
                    None => f matches Some(ch) ==> !(ch.child_off < buf@.len()
                        && entry_decodable(buf@, *h, ch.child_off as int)),
                }
            }),
    {
        match self.find_child(c) {
            None => None,
            Some(ch) => {
                if ch.child_off < buf.len() as u64 {
                    let coff = ch.child_off as usize;
                    match TrieEntry::parse(h, buf, coff) {
                        Ok(e) => Some(e),
                        Err(_) => None,
                    }
                } else {
                    None
                }
            },
        }
    }
}

/// The number of file bytes an entry spans under the record sizes `h`
/// declares, saturated at `usize::MAX`.
pub open spec fn spec_entry_len(h: TrieHeader, e: TrieEntry) -> int {
    let span = h.node_size + e.spec_children().len() * h.child_entry_size + e.spec_values().len()
        * h.value_entry_size;
    if span <= usize::MAX {
        span
    } else {
        usize::MAX as int
    }
}

/// Sorts a decoded child table ascending by edge label, equal labels
/// keeping their stored order.
fn sort_children_vec(input: Vec<TrieChildEntry>) -> (r: Vec<TrieChildEntry>)
    ensures
        r@ == sort_children(input@),
{
    let mut out: Vec<TrieChildEntry> = Vec::new();
    let mut i: usize = 0;
    while i < input.len()
        invariant
            0 <= i <= input@.len(),
            out@ == sort_children(input@.take(i as int)),
        decreases input@.len() - i,
    {
        insert_child(&mut out, input[i]);
        proof {
            assert(input@.take(i + 1).drop_last() =~= input@.take(i as int));
            assert(input@.take(i + 1).last() == input@[i as int]);
        }
        i = i + 1;
    }
    proof {
        assert(input@.take(input@.len() as int) =~= input@);
    }
    out
}

} // verus!
