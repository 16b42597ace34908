//! The trie searcher: walks the trie from the root, consuming the query
//! byte by byte along literal prefixes and edges, speculatively descending
//! glob edges (`*`, then `?`, then `[`) with full glob matching, and
//! emitting the value records of every matching terminal node into the
//! property list in encounter order.

use vstd::prelude::*;

use crate::bytes::{string_at, string_ok, trie_string};
use crate::entry::{
    children_base, entry_decodable, entry_matches, sort_children, spec_children_at,
    spec_find_child, spec_values_at, values_base, TrieEntry,
};
use crate::error::HwdbError;
use crate::glob::{fnmatch_at, glob_char, glob_matches, is_glob_char, GLOB_ANY, GLOB_SET, GLOB_STAR};
use crate::header::TrieHeader;
use crate::line::{LineBuf, LINE_MAX};
use crate::list::{prop_emits, UdevList, PROP_SPACE};
use crate::records::{spec_node_at, TrieChildEntry, TrieValueEntry};

verus! {

/// How many trie levels a walk may descend before the searcher declares
/// the file malformed: deeper nestings than this cannot come from a sane
/// encoder, while a corrupt file could otherwise send the walk around a
/// cycle forever.
pub const DESCENT_MAX: usize = 4096;

/// What emitting the value records `vals` yields: the property pairs put
/// into the list (keys with their single leading space stripped, space-less
/// keys dropped) and the error, if reading a key or value string fails.
pub open spec fn spec_emit_values(buf: Seq<u8>, vals: Seq<TrieValueEntry>) -> (
    Seq<(Seq<u8>, Seq<u8>)>,
    Option<HwdbError>,
)
    decreases vals.len(),
{
    if vals.len() == 0 {
        (seq![], None)
    } else {
        let v = vals[0];
        if !string_ok(buf, v.key_off as int) || !string_ok(buf, v.value_off as int) {
            (seq![], Some(HwdbError::Bounds))
        } else {
            let k = string_at(buf, v.key_off as int);
            let w = string_at(buf, v.value_off as int);
            let rest = spec_emit_values(buf, vals.skip(1));
            (prop_emits(k, w) + rest.0, rest.1)
        }
    }
}

/// What glob-matching the subtree at `off` yields, entered with the
/// pattern scratch `line` accumulated so far, a position `p` inside the
/// node's prefix, and the query tail `q`: the node's prefix from `p` and
/// then each child edge in label order extend the line, every subtree is
/// explored, and the values of each node that carries any and whose
/// accumulated pattern glob-matches `q` are emitted.
pub open spec fn spec_fnmatch(
    buf: Seq<u8>,
    h: TrieHeader,
    line: Seq<u8>,
    off: int,
    p: int,
    q: Seq<u8>,
    fuel: nat,
) -> (Seq<(Seq<u8>, Seq<u8>)>, Option<HwdbError>)
    decreases fuel, 0int,
{
    if fuel == 0 {
        (seq![], Some(HwdbError::Bounds))
    } else if !entry_decodable(buf, h, off) {
        (seq![], Some(HwdbError::Bounds))
    } else {
        let node = spec_node_at(buf, off);
        if node.prefix_off != 0 && !string_ok(buf, node.prefix_off as int) {
            (seq![], Some(HwdbError::Bounds))
        } else {
            let pfx = if node.prefix_off == 0 {
                Seq::<u8>::empty()
            } else {
                string_at(buf, node.prefix_off as int)
            };
            let pstart = if p <= pfx.len() {
                p
            } else {
                pfx.len() as int
            };
            if line.len() + (pfx.len() - pstart) > LINE_MAX {
                (seq![], Some(HwdbError::LineOverflow))
            } else {
                let line2 = line + pfx.skip(pstart);
                let kids = sort_children(
                    spec_children_at(buf, h, children_base(h, off), node.children_count as int),
                );
                let sub = spec_fnmatch_children(buf, h, line2, kids, q, (fuel - 1) as nat);
                if sub.1 is Some {
                    sub
                } else if node.values_count > 0 && glob_matches(line2, q) {
                    let vals = spec_values_at(
                        buf,
                        h,
                        values_base(buf, h, off),
                        node.values_count as int,
                    );
                    let em = spec_emit_values(buf, vals);
                    (sub.0 + em.0, em.1)
                } else {
                    sub
                }
            }
        }
    }
}

/// What descending each child edge of `children` in turn yields during
/// glob matching: the edge label extends the line, the subtree below is
/// matched, and an error stops the sweep.
pub open spec fn spec_fnmatch_children(
    buf: Seq<u8>,
    h: TrieHeader,
    line: Seq<u8>,
    children: Seq<TrieChildEntry>,
    q: Seq<u8>,
    fuel: nat,
) -> (Seq<(Seq<u8>, Seq<u8>)>, Option<HwdbError>)
    decreases fuel, children.len(),
{
    if children.len() == 0 {
        (seq![], None)
    } else {
        let ch = children[0];
        if line.len() + 1 > LINE_MAX {
            (seq![], Some(HwdbError::LineOverflow))
        } else {
            let sub = spec_fnmatch(buf, h, line.push(ch.c), ch.child_off as int, 0, q, fuel);
            if sub.1 is Some {
                sub
            } else {
                let rest = spec_fnmatch_children(buf, h, line, children.skip(1), q, fuel);
                (sub.0 + rest.0, rest.1)
            }
        }
    }
}

/// Where the literal scan of prefix `pfx` against the query (whose next
/// unconsumed position is `i`) first stops, scanning from `p`: at the
/// first glob metacharacter, at the first literal mismatch against an
/// in-range query byte, or at the prefix's end.
pub open spec fn scan_stop(pfx: Seq<u8>, q: Seq<u8>, i: int, p: int) -> int
    decreases pfx.len() - p,
{
    if p < 0 || p >= pfx.len() {
        pfx.len() as int
    } else if is_glob_char(pfx[p]) {
        p
    } else if i + p < q.len() && pfx[p] != q[i + p] {
        p
    } else {
        scan_stop(pfx, q, i, p + 1)
    }
}

/// The smaller of `a` and `b`.
pub open spec fn min_int(a: int, b: int) -> int {
    if a <= b {
        a
    } else {
        b
    }
}

/// What one step of the walk at node `off` with next query position `i`
/// yields, following the step rule: consume the node's literal prefix
/// (switching to glob matching at the first metacharacter, stopping the
/// branch at a literal mismatch), speculatively descend the `*`, `?` and
/// `[` edges in that order, emit the node's values when the query is
/// exhausted, then descend the edge labelled with the next query byte
/// (NUL when the query is exhausted).
pub open spec fn spec_search_step(
    buf: Seq<u8>,
    h: TrieHeader,
    off: int,
    i: int,
    q: Seq<u8>,
    fuel: nat,
) -> (Seq<(Seq<u8>, Seq<u8>)>, Option<HwdbError>)
    decreases fuel, 2int,
{
    if fuel == 0 {
        (seq![], Some(HwdbError::Bounds))
    } else if !entry_decodable(buf, h, off) {
        (seq![], Some(HwdbError::Bounds))
    } else {
        let node = spec_node_at(buf, off);
        if node.prefix_off != 0 && !string_ok(buf, node.prefix_off as int) {
            (seq![], Some(HwdbError::Bounds))
        } else {
            let pfx = if node.prefix_off == 0 {
                Seq::<u8>::empty()
            } else {
                string_at(buf, node.prefix_off as int)
            };
            let stop = scan_stop(pfx, q, i, 0);
            if stop < pfx.len() && is_glob_char(pfx[stop]) {
                spec_fnmatch(
                    buf,
                    h,
                    seq![],
                    off,
                    stop,
                    q.skip(min_int(i + stop, q.len() as int)),
                    DESCENT_MAX as nat,
                )
            } else if stop < pfx.len() {
                (seq![], None)
            } else {
                spec_step_tail(buf, h, off, min_int(i + pfx.len(), q.len() as int), q, fuel)
            }
        }
    }
}

/// What the rest of one walk step yields once the node's prefix has been
/// consumed and `i2` is the next query position: the speculative `*`, `?`
/// and `[` descents in that order, the value emission when the query is
/// exhausted, then the literal descent on the next query byte.
pub open spec fn spec_step_tail(
    buf: Seq<u8>,
    h: TrieHeader,
    off: int,
    i2: int,
    q: Seq<u8>,
    fuel: nat,
) -> (Seq<(Seq<u8>, Seq<u8>)>, Option<HwdbError>)
    decreases fuel, 1int,
{
    if fuel == 0 {
        (seq![], Some(HwdbError::Bounds))
    } else {
        let node = spec_node_at(buf, off);
        let kids = sort_children(
            spec_children_at(buf, h, children_base(h, off), node.children_count as int),
        );
        let qt = q.skip(i2);
        let star = match spec_find_child(kids, GLOB_STAR) {
            Some(ch) => spec_fnmatch(
                buf,
                h,
                seq![GLOB_STAR],
                ch.child_off as int,
                0,
                qt,
                DESCENT_MAX as nat,
            ),
            None => (seq![], None),
        };
        if star.1 is Some {
            star
        } else {
            let any = match spec_find_child(kids, GLOB_ANY) {
                Some(ch) => spec_fnmatch(
                    buf,
                    h,
                    seq![GLOB_ANY],
                    ch.child_off as int,
                    0,
                    qt,
                    DESCENT_MAX as nat,
                ),
                None => (seq![], None),
            };
            if any.1 is Some {
                (star.0 + any.0, any.1)
            } else {
                let set = match spec_find_child(kids, GLOB_SET) {
                    Some(ch) => spec_fnmatch(
                        buf,
                        h,
                        seq![GLOB_SET],
                        ch.child_off as int,
                        0,
                        qt,
                        DESCENT_MAX as nat,
                    ),
                    None => (seq![], None),
                };
                if set.1 is Some {
                    (star.0 + any.0 + set.0, set.1)
                } else {
                    let globs = star.0 + any.0 + set.0;
                    let rest = spec_step_term(buf, h, off, i2, q, fuel);
                    (globs + rest.0, rest.1)
                }
            }
        }
    }
}

/// What closes one walk step after the speculative glob descents: the
/// node's values are emitted when the query is exhausted at `i2`, then the
/// walk descends the edge labelled with the next query byte (NUL when the
/// query is exhausted), if the node has one.
pub open spec fn spec_step_term(
    buf: Seq<u8>,
    h: TrieHeader,
    off: int,
    i2: int,
    q: Seq<u8>,
    fuel: nat,
) -> (Seq<(Seq<u8>, Seq<u8>)>, Option<HwdbError>)
    decreases fuel, 0int,
{
    if fuel == 0 {
        (seq![], Some(HwdbError::Bounds))
    } else {
        let node = spec_node_at(buf, off);
        let kids = sort_children(
            spec_children_at(buf, h, children_base(h, off), node.children_count as int),
        );
        let term = if i2 >= q.len() || q[i2] == 0 {
            spec_emit_values(
                buf,
                spec_values_at(buf, h, values_base(buf, h, off), node.values_count as int),
            )
        } else {
            (seq![], None)
        };
        if term.1 is Some {
            term
        } else {
            let c = if i2 < q.len() {
                q[i2]
            } else {
                0u8
            };
            match spec_find_child(kids, c) {
                None => (term.0, None),
                Some(ch) => {
                    let rest = spec_search_step(
                        buf,
                        h,
                        ch.child_off as int,
                        min_int(i2 + 1, q.len() as int),
                        q,
                        (fuel - 1) as nat,
                    );
                    (term.0 + rest.0, rest.1)
                },
            }
        }
    }
}

/// What a whole search yields: the walk started at the root node with the
/// full query ahead of it.
pub open spec fn spec_search(buf: Seq<u8>, h: TrieHeader, q: Seq<u8>) -> (
    Seq<(Seq<u8>, Seq<u8>)>,
    Option<HwdbError>,
)
{
    spec_search_step(buf, h, h.nodes_root_off as int, 0, q, DESCENT_MAX as nat)
}

/// Emits every value record of `values` in stored order: the key and value
/// strings are read from the pool and handed to the property sink, which
/// keeps only keys opening with a single ASCII space, stripped of it.
pub(crate) fn emit_values(list: &mut UdevList, buf: &Vec<u8>, values: &Vec<TrieValueEntry>) -> (r:
    Result<(), HwdbError>)
    ensures
        ({
            let em = spec_emit_values(buf@, values@);
            &&& final(list)@ == old(list)@ + em.0
            &&& match r {
                Ok(()) => em.1 is None,
                Err(e) => em.1 == Some(e),
            }
        }),
{
    let ghost full = spec_emit_values(buf@, values@);
    proof {
        assert(values@.skip(0) =~= values@);
        assert(list@.skip(old(list)@.len() as int) =~= Seq::<(Seq<u8>, Seq<u8>)>::empty());
        assert(full.0 =~= list@.skip(old(list)@.len() as int) + spec_emit_values(
            buf@,
            values@.skip(0),
        ).0);
    }
    let mut k: usize = 0;
    while k < values.len()
        invariant
            0 <= k <= values@.len(),
            old(list)@.is_prefix_of(list@),
            full == spec_emit_values(buf@, values@),
            full.0 == list@.skip(old(list)@.len() as int) + spec_emit_values(
                buf@,
                values@.skip(k as int),
            ).0,
            full.1 == spec_emit_values(buf@, values@.skip(k as int)).1,
        decreases values@.len() - k,
    {
        let ghost rem = spec_emit_values(buf@, values@.skip(k as int));
        let v = values[k];
        proof {
            assert(values@.skip(k as int)[0] == values@[k as int]);
        }
        let blen = buf.len() as u64;
        if v.key_off >= blen {
            proof {
                assert(!string_ok(buf@, v.key_off as int));
            }
            return Err(HwdbError::Bounds);
        }
        let key = match trie_string(buf, v.key_off as usize) {
            Ok(s) => s,
            Err(e) => {
                return Err(e);
            },
        };
        if v.value_off >= blen {
            proof {
                assert(!string_ok(buf@, v.value_off as int));
            }
            return Err(HwdbError::Bounds);
        }
        let value = match trie_string(buf, v.value_off as usize) {
            Ok(s) => s,
            Err(e) => {
                return Err(e);
            },
        };
        crate::list::add_checked(list, &key, &value);
        proof {
            assert(values@.skip(k as int).skip(1) =~= values@.skip(k + 1));
            let rem2 = spec_emit_values(buf@, values@.skip(k + 1));
            assert(rem.0 == prop_emits(key@, value@) + rem2.0 && rem.1 == rem2.1);
            assert(old(list)@.is_prefix_of(list@));
            assert(full.0 =~= list@.skip(old(list)@.len() as int) + rem2.0);
        }
        k = k + 1;
    }
    proof {
        assert(values@.skip(values@.len() as int) =~= Seq::<TrieValueEntry>::empty());
        assert(spec_emit_values(buf@, values@.skip(values@.len() as int)).0 =~= Seq::<
            (Seq<u8>, Seq<u8>),
        >::empty());
        assert(full.0 =~= list@.skip(old(list)@.len() as int));
        assert(list@ =~= old(list)@ + full.0);
    }
    Ok(())
}


/// Sweeps the child edges of `entry` in label order during glob matching:
/// each edge label extends the scratch `line`, the subtree below it is
/// matched, and the label is removed again.
///
/// On success the line is exactly as it was handed in.
#[verifier::loop_isolation(false)]
#[verifier::rlimit(100)]
fn fnmatch_children(
    line: &mut LineBuf,
    list: &mut UdevList,
    h: &TrieHeader,
    buf: &Vec<u8>,
    entry: &TrieEntry,
    q: &Vec<u8>,
    qi: usize,
    fuel: usize,
) -> (r: Result<(), HwdbError>)
    requires
        old(line).inv(),
        qi <= q@.len(),
    ensures
        final(line).inv(),
        ({
            let res = spec_fnmatch_children(
                buf@,
                *h,
                old(line)@,
                entry.spec_children(),
                q@.skip(qi as int),
                fuel as nat,
            );
            &&& final(list)@ == old(list)@ + res.0
            &&& match r {
                Ok(()) => res.1 is None && final(line)@ == old(line)@,
                Err(e) => res.1 == Some(e),
            }
        }),
    decreases fuel, 1int,
{
    let ghost line2 = old(line)@;
    let ghost qt = q@.skip(qi as int);
    let ghost kids = entry.spec_children();
    let ghost subfull = spec_fnmatch_children(buf@, *h, line2, kids, qt, fuel as nat);
    let blen = buf.len() as u64;
    proof {
        assert(kids.skip(0) =~= kids);
        assert(list@.skip(old(list)@.len() as int) =~= Seq::<(Seq<u8>, Seq<u8>)>::empty());
        assert(subfull.0 =~= list@.skip(old(list)@.len() as int) + spec_fnmatch_children(
            buf@,
            *h,
            line2,
            kids.skip(0),
            qt,
            fuel as nat,
        ).0);
    }
    let mut k: usize = 0;
    while k < entry.children().len()
        invariant
            0 <= k <= kids.len(),
            line@ == line2,
            line.inv(),
            old(list)@.is_prefix_of(list@),
            subfull.0 == list@.skip(old(list)@.len() as int) + spec_fnmatch_children(
                buf@,
                *h,
                line2,
                kids.skip(k as int),
                qt,
                fuel as nat,
            ).0,
            subfull.1 == spec_fnmatch_children(
                buf@,
                *h,
                line2,
                kids.skip(k as int),
                qt,
                fuel as nat,
            ).1,
        decreases kids.len() - k,
    {
        let ghost rem = spec_fnmatch_children(buf@, *h, line2, kids.skip(k as int), qt, fuel as nat);
        let ch = entry.children()[k];
        proof {
            assert(kids.skip(k as int)[0] == kids[k as int]);
        }
        match line.add_char(ch.c) {
            Ok(()) => {},
            Err(e) => {
                proof {
                    assert(rem.1 == Some(HwdbError::LineOverflow) && rem.0 =~= Seq::<
                        (Seq<u8>, Seq<u8>),
                    >::empty());
                    assert(subfull.1 == Some(e));
                    assert(list@ =~= old(list)@ + subfull.0);
                }
                return Err(e);
            },
        }
        let ghost sub = spec_fnmatch(
            buf@,
            *h,
            line2.push(ch.c),
            ch.child_off as int,
            0,
            qt,
            fuel as nat,
        );
        if ch.child_off >= blen {
            proof {
                assert(!entry_decodable(buf@, *h, ch.child_off as int));
                assert(sub == (Seq::<(Seq<u8>, Seq<u8>)>::empty(), Some(HwdbError::Bounds)));
                assert(rem == sub);
                assert(subfull.1 == Some(HwdbError::Bounds));
                assert(list@ =~= old(list)@ + subfull.0);
            }
            return Err(HwdbError::Bounds);
        }
        let ghost list_pre = list@;
        let rec = trie_fnmatch(line, list, h, buf, ch.child_off as usize, 0, q, qi, fuel);
        match rec {
            Ok(()) => {},
            Err(e) => {
                proof {
                    assert(list@ == list_pre + sub.0);
                    assert(sub.1 == Some(e));
                    assert(rem == (sub.0, sub.1));
                    assert(subfull.1 == Some(e));
                    assert(list@.skip(old(list)@.len() as int) =~= list_pre.skip(
                        old(list)@.len() as int,
                    ) + sub.0);
                    assert(list@ =~= old(list)@ + subfull.0);
                }
                return Err(e);
            },
        }
        line.remove_char();
        proof {
            assert(line2.push(ch.c).drop_last() =~= line2);
            assert(kids.skip(k as int).skip(1) =~= kids.skip(k + 1));
            let rem2 = spec_fnmatch_children(buf@, *h, line2, kids.skip(k + 1), qt, fuel as nat);
            assert(rem.0 == sub.0 + rem2.0 && rem.1 == rem2.1);
            assert(list@ == list_pre + sub.0);
            assert(old(list)@.is_prefix_of(list@)) by {
                assert(list@.subrange(0, old(list)@.len() as int) =~= old(list)@);
            }
            assert(list@.skip(old(list)@.len() as int) =~= list_pre.skip(old(list)@.len() as int)
                + sub.0);
            assert(subfull.0 =~= list@.skip(old(list)@.len() as int) + rem2.0);
        }
        k = k + 1;
    }
    proof {
        assert(kids.skip(kids.len() as int) =~= Seq::<TrieChildEntry>::empty());
        assert(subfull.1 is None);
        assert(subfull.0 =~= list@.skip(old(list)@.len() as int));
        assert(list@ =~= old(list)@ + subfull.0);
    }
    Ok(())
}

/// Glob-matches the subtree rooted at `off` against the query tail
/// `q[qi..]`: the node's prefix from position `p` and every child edge in
/// label order extend the scratch `line`, and the values of each node in
/// the subtree whose accumulated pattern glob-matches the tail are emitted
/// into `list`.
///
/// On success the line is exactly as it was handed in; on an error the
/// properties emitted so far are left in place and the error tells what
/// stopped the sweep.
#[verifier::rlimit(100)]
pub(crate) fn trie_fnmatch(
    line: &mut LineBuf,
    list: &mut UdevList,
    h: &TrieHeader,
    buf: &Vec<u8>,
    off: usize,
    p: usize,
    q: &Vec<u8>,
    qi: usize,
    fuel: usize,
) -> (r: Result<(), HwdbError>)
    requires
        old(line).inv(),
        qi <= q@.len(),
    ensures
        final(line).inv(),
        ({
            let res = spec_fnmatch(
                buf@,
                *h,
                old(line)@,
                off as int,
                p as int,
                q@.skip(qi as int),
                fuel as nat,
            );
            &&& final(list)@ == old(list)@ + res.0
            &&& match r {
                Ok(()) => res.1 is None && final(line)@ == old(line)@,
                Err(e) => res.1 == Some(e),
            }
        }),
    decreases fuel, 0int,
{
    let ghost res = spec_fnmatch(
        buf@,
        *h,
        old(line)@,
        off as int,
        p as int,
        q@.skip(qi as int),
        fuel as nat,
    );
    if fuel == 0 {
        proof {
            assert(list@ =~= old(list)@ + res.0);
        }
        return Err(HwdbError::Bounds);
    }
    let entry = match TrieEntry::parse(h, buf, off) {
        Ok(e) => e,
        Err(err) => {
            proof {
                assert(list@ =~= old(list)@ + res.0);
            }
            return Err(err);
        },
    };
    let node = *entry.node();
    let blen = buf.len() as u64;
    let pfx: Vec<u8> = if node.prefix_off == 0 {
        Vec::new()
    } else if node.prefix_off >= blen {
        proof {
            assert(!string_ok(buf@, node.prefix_off as int));
            assert(list@ =~= old(list)@ + res.0);
        }
        return Err(HwdbError::Bounds);
    } else {
        match trie_string(buf, node.prefix_off as usize) {
            Ok(s) => s,
            Err(e) => {
                proof {
                    assert(list@ =~= old(list)@ + res.0);
                }
                return Err(e);
            },
        }
    };
    let ghost spec_pfx = if node.prefix_off == 0 {
        Seq::<u8>::empty()
    } else {
        string_at(buf@, node.prefix_off as int)
    };
    proof {
        if node.prefix_off == 0 {
            assert(pfx@ =~= spec_pfx);
        }
    }
    let keep = line.len();
    let pstart = if p <= pfx.len() {
        p
    } else {
        pfx.len()
    };
    match line.add_tail(&pfx, pstart) {
        Ok(()) => {},
        Err(e) => {
            proof {
                assert(list@ =~= old(list)@ + res.0);
            }
            return Err(e);
        },
    }
    let ghost line2 = old(line)@ + spec_pfx.skip(pstart as int);
    let ghost qt = q@.skip(qi as int);
    let ghost subfull = spec_fnmatch_children(
        buf@,
        *h,
        line2,
        entry.spec_children(),
        qt,
        (fuel - 1) as nat,
    );
    proof {
        assert(line@ == line2);
        assert(res == if subfull.1 is Some {
            subfull
        } else if node.values_count > 0 && glob_matches(line2, qt) {
            let em = spec_emit_values(
                buf@,
                spec_values_at(
                    buf@,
                    *h,
                    values_base(buf@, *h, off as int),
                    node.values_count as int,
                ),
            );
            (subfull.0 + em.0, em.1)
        } else {
            subfull
        });
    }
    let ghost list_mid = list@;
    match fnmatch_children(line, list, h, buf, &entry, q, qi, fuel - 1) {
        Ok(()) => {},
        Err(e) => {
            proof {
                assert(subfull.1 == Some(e));
                assert(list@ == list_mid + subfull.0);
                assert(list@ =~= old(list)@ + res.0);
            }
            return Err(e);
        },
    }
    proof {
        assert(list@ == old(list)@ + subfull.0);
        assert(subfull.1 is None);
    }
    let mut matched = false;
    if entry.values().len() > 0 {
        proof {
            assert(line@.skip(0) =~= line2);
        }
        matched = fnmatch_at(line.bytes(), 0, q, qi);
    }
    if matched {
        let ghost list_pre = list@;
        let ghost em = spec_emit_values(buf@, entry.spec_values());
        match emit_values(list, buf, entry.values()) {
            Ok(()) => {},
            Err(e) => {
                proof {
                    assert(list@ == list_pre + em.0);
                    assert(res == (subfull.0 + em.0, em.1));
                    assert(list@ =~= old(list)@ + res.0);
                }
                return Err(e);
            },
        }
        proof {
            assert(list@ == list_pre + em.0);
            assert(res == (subfull.0 + em.0, em.1));
            assert(list@ =~= old(list)@ + res.0);
        }
    } else {
        proof {
            assert(res == subfull);
            assert(list@ =~= old(list)@ + res.0);
        }
    }
    line.rewind_to(keep);
    proof {
        assert(line2.take(keep as int) =~= old(line)@);
    }
    Ok(())
}


/// Speculatively descends the child edge of `entry` labelled `label`
/// (when present): glob-matches the subtree below it against the query
/// tail, the scratch line starting as that single label.
#[verifier::rlimit(100)]
fn glob_descend(
    list: &mut UdevList,
    h: &TrieHeader,
    buf: &Vec<u8>,
    entry: &TrieEntry,
    label: u8,
    q: &Vec<u8>,
    qi: usize,
) -> (r: Result<(), HwdbError>)
    requires
        qi <= q@.len(),
    ensures
        ({
            let res = match spec_find_child(entry.spec_children(), label) {
                Some(ch) => spec_fnmatch(
                    buf@,
                    *h,
                    seq![label],
                    ch.child_off as int,
                    0,
                    q@.skip(qi as int),
                    DESCENT_MAX as nat,
                ),
                None => (seq![], None),
            };
            &&& final(list)@ == old(list)@ + res.0
            &&& match r {
                Ok(()) => res.1 is None,
                Err(e) => res.1 == Some(e),
            }
        }),
{
    match entry.find_child(label) {
        None => {
            proof {
                assert(list@ =~= old(list)@ + Seq::<(Seq<u8>, Seq<u8>)>::empty());
            }
            Ok(())
        },
        Some(ch) => {
            let mut lb = LineBuf::new();
            match lb.add_char(label) {
                Ok(()) => {},
                Err(e) => {
                    proof {
                        assert(false);
                    }
                    return Err(e);
                },
            }
            proof {
                assert(lb@ =~= seq![label]);
            }
            if ch.child_off >= buf.len() as u64 {
                proof {
                    assert(!entry_decodable(buf@, *h, ch.child_off as int));
                    assert(list@ =~= old(list)@ + Seq::<(Seq<u8>, Seq<u8>)>::empty());
                }
                return Err(HwdbError::Bounds);
            }
            trie_fnmatch(&mut lb, list, h, buf, ch.child_off as usize, 0, q, qi, DESCENT_MAX)
        },
    }
}

/// The rest of one walk step once the node's prefix has been consumed:
/// sweeps the `*`, `?` and `[` edges of `entry` in that order, emits the
/// node's values when the query is exhausted at `i2`, and descends the
/// edge labelled with the next query byte.
#[verifier::rlimit(100)]
fn step_tail(
    list: &mut UdevList,
    h: &TrieHeader,
    buf: &Vec<u8>,
    entry: &TrieEntry,
    off: usize,
    i2: usize,
    q: &Vec<u8>,
    fuel: usize,
) -> (r: Result<(), HwdbError>)
    requires
        i2 <= q@.len(),
        fuel >= 1,
        entry_matches(*entry, buf@, *h, off as int),
    ensures
        ({
            let res = spec_step_tail(buf@, *h, off as int, i2 as int, q@, fuel as nat);
            &&& final(list)@ == old(list)@ + res.0
            &&& match r {
                Ok(()) => res.1 is None,
                Err(e) => res.1 == Some(e),
            }
        }),
    decreases fuel, 1int,
{
    let ghost res = spec_step_tail(buf@, *h, off as int, i2 as int, q@, fuel as nat);
    let node = *entry.node();
    let blen = buf.len() as u64;
    let ghost qt = q@.skip(i2 as int);
    let ghost kids = entry.spec_children();
    let ghost star = match spec_find_child(kids, GLOB_STAR) {
        Some(ch) => spec_fnmatch(
            buf@,
            *h,
            seq![GLOB_STAR],
            ch.child_off as int,
            0,
            qt,
            DESCENT_MAX as nat,
        ),
        None => (seq![], None),
    };
    let ghost any = match spec_find_child(kids, GLOB_ANY) {
        Some(ch) => spec_fnmatch(
            buf@,
            *h,
            seq![GLOB_ANY],
            ch.child_off as int,
            0,
            qt,
            DESCENT_MAX as nat,
        ),
        None => (seq![], None),
    };
    let ghost set = match spec_find_child(kids, GLOB_SET) {
        Some(ch) => spec_fnmatch(
            buf@,
            *h,
            seq![GLOB_SET],
            ch.child_off as int,
            0,
            qt,
            DESCENT_MAX as nat,
        ),
        None => (seq![], None),
    };
    match glob_descend(list, h, buf, entry, GLOB_STAR, q, i2) {
        Ok(()) => {},
        Err(e) => {
            proof {
                assert(res == star);
                assert(list@ =~= old(list)@ + res.0);
            }
            return Err(e);
        },
    }
    match glob_descend(list, h, buf, entry, GLOB_ANY, q, i2) {
        Ok(()) => {},
        Err(e) => {
            proof {
                assert(res == (star.0 + any.0, any.1));
                assert(list@ =~= old(list)@ + res.0);
            }
            return Err(e);
        },
    }
    match glob_descend(list, h, buf, entry, GLOB_SET, q, i2) {
        Ok(()) => {},
        Err(e) => {
            proof {
                assert(res == (star.0 + any.0 + set.0, set.1));
                assert(list@ =~= old(list)@ + res.0);
            }
            return Err(e);
        },
    }
    let ghost globs = star.0 + any.0 + set.0;
    let ghost rest = spec_step_term(buf@, *h, off as int, i2 as int, q@, fuel as nat);
    proof {
        assert(list@ =~= old(list)@ + globs);
        assert(res == (globs + rest.0, rest.1));
    }
    let ghost list_pre = list@;
    let rr = step_term(list, h, buf, entry, off, i2, q, fuel);
    proof {
        assert(list@ == list_pre + rest.0);
        assert(list@ =~= old(list)@ + res.0);
    }
    rr
}

/// Closes one walk step after the speculative glob descents: emits the
/// node's values when the query is exhausted at `i2`, then descends the
/// edge labelled with the next query byte.
#[verifier::rlimit(100)]
fn step_term(
    list: &mut UdevList,
    h: &TrieHeader,
    buf: &Vec<u8>,
    entry: &TrieEntry,
    off: usize,
    i2: usize,
    q: &Vec<u8>,
    fuel: usize,
) -> (r: Result<(), HwdbError>)
    requires
        i2 <= q@.len(),
        fuel >= 1,
        entry_matches(*entry, buf@, *h, off as int),
    ensures
        ({
            let res = spec_step_term(buf@, *h, off as int, i2 as int, q@, fuel as nat);
            &&& final(list)@ == old(list)@ + res.0
            &&& match r {
                Ok(()) => res.1 is None,
                Err(e) => res.1 == Some(e),
            }
        }),
    decreases fuel, 0int,
{
    let ghost res = spec_step_term(buf@, *h, off as int, i2 as int, q@, fuel as nat);
    let blen = buf.len() as u64;
    let exhausted = i2 >= q.len() || q[i2] == 0;
    let ghost term = if i2 >= q@.len() || q@[i2 as int] == 0 {
        spec_emit_values(buf@, entry.spec_values())
    } else {
        (Seq::<(Seq<u8>, Seq<u8>)>::empty(), None)
    };
    if exhausted {
        match emit_values(list, buf, entry.values()) {
            Ok(()) => {},
            Err(e) => {
                proof {
                    assert(term.1 == Some(e));
                    assert(res == term);
                    assert(list@ =~= old(list)@ + res.0);
                }
                return Err(e);
            },
        }
        proof {
            assert(list@ =~= old(list)@ + term.0);
        }
    } else {
        proof {
            assert(term.0 =~= Seq::<(Seq<u8>, Seq<u8>)>::empty());
            assert(list@ =~= old(list)@ + term.0);
        }
    }
    let c: u8 = if i2 < q.len() {
        q[i2]
    } else {
        0
    };
    match entry.find_child(c) {
        None => {
            proof {
                assert(res == (term.0, None::<HwdbError>));
                assert(list@ =~= old(list)@ + res.0);
            }
            Ok(())
        },
        Some(ch) => {
            if ch.child_off >= blen {
                proof {
                    assert(!entry_decodable(buf@, *h, ch.child_off as int));
                    assert(res.1 == Some(HwdbError::Bounds));
                    assert(res.0 =~= term.0 + Seq::<(Seq<u8>, Seq<u8>)>::empty());
                    assert(list@ =~= old(list)@ + res.0);
                }
                return Err(HwdbError::Bounds);
            }
            let next_i: usize = if i2 < q.len() {
                i2 + 1
            } else {
                q.len()
            };
            proof {
                assert(next_i as int == min_int(i2 + 1, q@.len() as int));
            }
            let ghost rest = spec_search_step(
                buf@,
                *h,
                ch.child_off as int,
                next_i as int,
                q@,
                (fuel - 1) as nat,
            );
            let ghost list_pre = list@;
            let rr = search_step(list, h, buf, ch.child_off as usize, next_i, q, fuel - 1);
            proof {
                assert(list@ == list_pre + rest.0);
                assert(res == (term.0 + rest.0, rest.1));
                assert(list@ =~= old(list)@ + res.0);
            }
            rr
        },
    }
}

/// One step of the walk at node `off` with next query position `i`:
/// consumes the node's literal prefix (switching to glob matching at a
/// metacharacter, giving up the branch on a mismatch), then hands over to
/// the edge sweep and value emission of the step's tail.
#[verifier::loop_isolation(false)]
#[verifier::rlimit(100)]
pub(crate) fn search_step(
    list: &mut UdevList,
    h: &TrieHeader,
    buf: &Vec<u8>,
    off: usize,
    i: usize,
    q: &Vec<u8>,
    fuel: usize,
) -> (r: Result<(), HwdbError>)
    requires
        i <= q@.len(),
    ensures
        ({
            let res = spec_search_step(buf@, *h, off as int, i as int, q@, fuel as nat);
            &&& final(list)@ == old(list)@ + res.0
            &&& match r {
                Ok(()) => res.1 is None,
                Err(e) => res.1 == Some(e),
            }
        }),
    decreases fuel, 2int,
{
    let ghost res = spec_search_step(buf@, *h, off as int, i as int, q@, fuel as nat);
    if fuel == 0 {
        proof {
            assert(list@ =~= old(list)@ + res.0);
        }
        return Err(HwdbError::Bounds);
    }
    let entry = match TrieEntry::parse(h, buf, off) {
        Ok(e) => e,
        Err(err) => {
            proof {
                assert(list@ =~= old(list)@ + res.0);
            }
            return Err(err);
        },
    };
    let node = *entry.node();
    let blen = buf.len() as u64;
    let ghost spec_pfx = if node.prefix_off == 0 {
        Seq::<u8>::empty()
    } else {
        string_at(buf@, node.prefix_off as int)
    };
    let mut i2: usize = i;
    if node.prefix_off != 0 {
        if node.prefix_off >= blen {
            proof {
                assert(!string_ok(buf@, node.prefix_off as int));
                assert(list@ =~= old(list)@ + res.0);
            }
            return Err(HwdbError::Bounds);
        }
        let pfx = match trie_string(buf, node.prefix_off as usize) {
            Ok(s) => s,
            Err(e) => {
                proof {
                    assert(list@ =~= old(list)@ + res.0);
                }
                return Err(e);
            },
        };
        proof {
            assert(pfx@ == spec_pfx);
        }
        let mut p: usize = 0;
        while p < pfx.len()
            invariant
                0 <= p <= pfx@.len(),
                list@ == old(list)@,
                scan_stop(pfx@, q@, i as int, 0) == scan_stop(pfx@, q@, i as int, p as int),
            decreases pfx@.len() - p,
        {
            let c = pfx[p];
            if glob_char(c) {
                let qi2: usize = if p >= q.len() - i {
                    q.len()
                } else {
                    i + p
                };
                proof {
                    assert(scan_stop(pfx@, q@, i as int, p as int) == p);
                    assert(qi2 as int == min_int(i + p, q@.len() as int));
                }
                let mut lb = LineBuf::new();
                let ghost lb0 = lb@;
                let rr = trie_fnmatch(&mut lb, list, h, buf, off, p, q, qi2, DESCENT_MAX);
                proof {
                    assert(scan_stop(spec_pfx, q@, i as int, 0) == p);
                    assert(is_glob_char(spec_pfx[p as int]));
                    assert(lb0 =~= Seq::<u8>::empty());
                    assert(res == spec_fnmatch(
                        buf@,
                        *h,
                        lb0,
                        off as int,
                        p as int,
                        q@.skip(qi2 as int),
                        DESCENT_MAX as nat,
                    ));
                    assert(list@ == old(list)@ + res.0);
                }
                return rr;
            }
            if p < q.len() - i {
                if pfx[p] != q[i + p] {
                    proof {
                        assert(scan_stop(pfx@, q@, i as int, p as int) == p);
                        assert(scan_stop(spec_pfx, q@, i as int, 0) == p);
                        assert(!is_glob_char(spec_pfx[p as int]));
                        assert(res == (Seq::<(Seq<u8>, Seq<u8>)>::empty(), None::<HwdbError>));
                        assert(list@ =~= old(list)@ + res.0);
                    }
                    return Ok(());
                }
            }
            proof {
                assert(scan_stop(pfx@, q@, i as int, p as int) == scan_stop(
                    pfx@,
                    q@,
                    i as int,
                    p + 1,
                ));
            }
            p = p + 1;
        }
        i2 = if pfx.len() >= q.len() - i {
            q.len()
        } else {
            i + pfx.len()
        };
        proof {
            assert(scan_stop(pfx@, q@, i as int, pfx@.len() as int) == pfx@.len());
            assert(i2 as int == min_int(i + spec_pfx.len(), q@.len() as int));
        }
    } else {
        proof {
            assert(scan_stop(spec_pfx, q@, i as int, 0) == 0);
            assert(i2 as int == min_int(i as int, q@.len() as int));
        }
    }
    proof {
        assert(res == spec_step_tail(buf@, *h, off as int, i2 as int, q@, fuel as nat));
    }
    step_tail(list, h, buf, &entry, off, i2, q, fuel)
}

/// Runs the whole search: the walk starts at the root node the header
/// names, with the full query ahead of it, and fills `list` with every
/// matching property in encounter order.
pub(crate) fn trie_search(
    list: &mut UdevList,
    h: &TrieHeader,
    buf: &Vec<u8>,
    search: &Vec<u8>,
) -> (r: Result<(), HwdbError>)
    ensures
        ({
            let res = spec_search(buf@, *h, search@);
            &&& final(list)@ == old(list)@ + res.0
            &&& match r {
                Ok(()) => res.1 is None,
                Err(e) => res.1 == Some(e),
            }
        }),
{
    let ghost res = spec_search(buf@, *h, search@);
    if h.nodes_root_off >= buf.len() as u64 {
        proof {
            assert(!entry_decodable(buf@, *h, h.nodes_root_off as int));
            assert(list@ =~= old(list)@ + res.0);
        }
        return Err(HwdbError::Bounds);
    }
    search_step(list, h, buf, h.nodes_root_off as usize, 0, search, DESCENT_MAX)
}


/// `name` is stored somewhere in the buffer's string pool with a single
/// ASCII space in front of it.
pub open spec fn key_spaced(buf: Seq<u8>, name: Seq<u8>) -> bool {
    exists|off: int| string_ok(buf, off) && string_at(buf, off) == seq![PROP_SPACE] + name
}

/// Every emitted pair's key is stored in the buffer's string pool with a
/// single ASCII space in front of it.
pub open spec fn keys_stored_spaced(buf: Seq<u8>, ems: Seq<(Seq<u8>, Seq<u8>)>) -> bool {
    forall|j: int| 0 <= j < ems.len() ==> key_spaced(buf, #[trigger] ems[j].0)
}

/// Concatenating two runs of emissions keeps every key space-stored.
proof fn lemma_spaced_concat(buf: Seq<u8>, a: Seq<(Seq<u8>, Seq<u8>)>, b: Seq<(Seq<u8>, Seq<u8>)>)
    requires
        keys_stored_spaced(buf, a),
        keys_stored_spaced(buf, b),
    ensures
        keys_stored_spaced(buf, a + b),
{
    assert forall|j: int| 0 <= j < (a + b).len() implies key_spaced(buf, #[trigger] (a + b)[j].0) by {
        if j < a.len() {
            assert((a + b)[j].0 == a[j].0);
            assert(key_spaced(buf, a[j].0));
        } else {
            assert((a + b)[j].0 == b[j - a.len()].0);
            assert(key_spaced(buf, b[j - a.len()].0));
        }
    }
}

/// Value emission only forwards keys that open with a single space, and
/// strips exactly that space.
proof fn lemma_emit_values_spaced(buf: Seq<u8>, vals: Seq<TrieValueEntry>)
    ensures
        keys_stored_spaced(buf, spec_emit_values(buf, vals).0),
    decreases vals.len(),
{
    if vals.len() == 0 {
    } else {
        let v = vals[0];
        if string_ok(buf, v.key_off as int) && string_ok(buf, v.value_off as int) {
            let k = string_at(buf, v.key_off as int);
            let w = string_at(buf, v.value_off as int);
            lemma_emit_values_spaced(buf, vals.skip(1));
            assert(keys_stored_spaced(buf, prop_emits(k, w))) by {
                if k.len() > 0 && k[0] == PROP_SPACE {
                    assert(string_at(buf, v.key_off as int) =~= seq![PROP_SPACE] + k.skip(1));
                    assert(key_spaced(buf, k.skip(1)));
                    assert(forall|j: int|
                        0 <= j < prop_emits(k, w).len() ==> #[trigger] prop_emits(k, w)[j].0
                            == k.skip(1));
                }
            }
            lemma_spaced_concat(buf, prop_emits(k, w), spec_emit_values(buf, vals.skip(1)).0);
        }
    }
}

/// Glob matching of a subtree emits only space-stored keys.
proof fn lemma_fnmatch_spaced(
    buf: Seq<u8>,
    h: TrieHeader,
    line: Seq<u8>,
    off: int,
    p: int,
    q: Seq<u8>,
    fuel: nat,
)
    ensures
        keys_stored_spaced(buf, spec_fnmatch(buf, h, line, off, p, q, fuel).0),
    decreases fuel, 0int,
{
    let res = spec_fnmatch(buf, h, line, off, p, q, fuel);
    if fuel == 0 || !entry_decodable(buf, h, off) {
    } else {
        let node = spec_node_at(buf, off);
        if node.prefix_off != 0 && !string_ok(buf, node.prefix_off as int) {
        } else {
            let pfx = if node.prefix_off == 0 {
                Seq::<u8>::empty()
            } else {
                string_at(buf, node.prefix_off as int)
            };
            let pstart = if p <= pfx.len() {
                p
            } else {
                pfx.len() as int
            };
            if line.len() + (pfx.len() - pstart) > LINE_MAX {
            } else {
                let line2 = line + pfx.skip(pstart);
                let kids = sort_children(
                    spec_children_at(buf, h, children_base(h, off), node.children_count as int),
                );
                lemma_fnmatch_children_spaced(buf, h, line2, kids, q, (fuel - 1) as nat);
                let sub = spec_fnmatch_children(buf, h, line2, kids, q, (fuel - 1) as nat);
                if sub.1 is Some {
                } else if node.values_count > 0 && glob_matches(line2, q) {
                    let vals = spec_values_at(
                        buf,
                        h,
                        values_base(buf, h, off),
                        node.values_count as int,
                    );
                    lemma_emit_values_spaced(buf, vals);
                    lemma_spaced_concat(buf, sub.0, spec_emit_values(buf, vals).0);
                }
            }
        }
    }
}

/// The child sweep of glob matching emits only space-stored keys.
proof fn lemma_fnmatch_children_spaced(
    buf: Seq<u8>,
    h: TrieHeader,
    line: Seq<u8>,
    children: Seq<TrieChildEntry>,
    q: Seq<u8>,
    fuel: nat,
)
    ensures
        keys_stored_spaced(buf, spec_fnmatch_children(buf, h, line, children, q, fuel).0),
    decreases fuel, children.len(),
{
    if children.len() == 0 {
    } else {
        let ch = children[0];
        if line.len() + 1 > LINE_MAX {
        } else {
            lemma_fnmatch_spaced(buf, h, line.push(ch.c), ch.child_off as int, 0, q, fuel);
            let sub = spec_fnmatch(buf, h, line.push(ch.c), ch.child_off as int, 0, q, fuel);
            if sub.1 is Some {
            } else {
                lemma_fnmatch_children_spaced(buf, h, line, children.skip(1), q, fuel);
                lemma_spaced_concat(
                    buf,
                    sub.0,
                    spec_fnmatch_children(buf, h, line, children.skip(1), q, fuel).0,
                );
            }
        }
    }
}

/// One walk step emits only space-stored keys.
proof fn lemma_step_spaced(buf: Seq<u8>, h: TrieHeader, off: int, i: int, q: Seq<u8>, fuel: nat)
    ensures
        keys_stored_spaced(buf, spec_search_step(buf, h, off, i, q, fuel).0),
    decreases fuel, 2int,
{
    if fuel == 0 || !entry_decodable(buf, h, off) {
    } else {
        let node = spec_node_at(buf, off);
        if node.prefix_off != 0 && !string_ok(buf, node.prefix_off as int) {
        } else {
            let pfx = if node.prefix_off == 0 {
                Seq::<u8>::empty()
            } else {
                string_at(buf, node.prefix_off as int)
            };
            let stop = scan_stop(pfx, q, i, 0);
            if stop < pfx.len() && is_glob_char(pfx[stop]) {
                lemma_fnmatch_spaced(
                    buf,
                    h,
                    seq![],
                    off,
                    stop,
                    q.skip(min_int(i + stop, q.len() as int)),
                    DESCENT_MAX as nat,
                );
            } else if stop < pfx.len() {
            } else {
                lemma_step_tail_spaced(
                    buf,
                    h,
                    off,
                    min_int(i + pfx.len(), q.len() as int),
                    q,
                    fuel,
                );
            }
        }
    }
}

/// The edge sweep of one walk step emits only space-stored keys.
proof fn lemma_step_tail_spaced(
    buf: Seq<u8>,
    h: TrieHeader,
    off: int,
    i2: int,
    q: Seq<u8>,
    fuel: nat,
)
    ensures
        keys_stored_spaced(buf, spec_step_tail(buf, h, off, i2, q, fuel).0),
    decreases fuel, 1int,
{
    if fuel == 0 {
    } else {
        let node = spec_node_at(buf, off);
        let kids = sort_children(
            spec_children_at(buf, h, children_base(h, off), node.children_count as int),
        );
        let qt = q.skip(i2);
        let star = match spec_find_child(kids, GLOB_STAR) {
            Some(ch) => spec_fnmatch(
                buf,
                h,
                seq![GLOB_STAR],
                ch.child_off as int,
                0,
                qt,
                DESCENT_MAX as nat,
            ),
            None => (seq![], None),
        };
        if spec_find_child(kids, GLOB_STAR) is Some {
            let ch = spec_find_child(kids, GLOB_STAR).unwrap();
            lemma_fnmatch_spaced(buf, h, seq![GLOB_STAR], ch.child_off as int, 0, qt, DESCENT_MAX as nat);
        }
        if star.1 is Some {
        } else {
            let any = match spec_find_child(kids, GLOB_ANY) {
                Some(ch) => spec_fnmatch(
                    buf,
                    h,
                    seq![GLOB_ANY],
                    ch.child_off as int,
                    0,
                    qt,
                    DESCENT_MAX as nat,
                ),
                None => (seq![], None),
            };
            if spec_find_child(kids, GLOB_ANY) is Some {
                let ch = spec_find_child(kids, GLOB_ANY).unwrap();
                lemma_fnmatch_spaced(buf, h, seq![GLOB_ANY], ch.child_off as int, 0, qt, DESCENT_MAX as nat);
            }
            if any.1 is Some {
                lemma_spaced_concat(buf, star.0, any.0);
            } else {
                let set = match spec_find_child(kids, GLOB_SET) {
                    Some(ch) => spec_fnmatch(
                        buf,
                        h,
                        seq![GLOB_SET],
                        ch.child_off as int,
                        0,
                        qt,
                        DESCENT_MAX as nat,
                    ),
                    None => (seq![], None),
                };
                if spec_find_child(kids, GLOB_SET) is Some {
                    let ch = spec_find_child(kids, GLOB_SET).unwrap();
                    lemma_fnmatch_spaced(buf, h, seq![GLOB_SET], ch.child_off as int, 0, qt, DESCENT_MAX as nat);
                }
                lemma_spaced_concat(buf, star.0, any.0);
                lemma_spaced_concat(buf, star.0 + any.0, set.0);
                if set.1 is Some {
                } else {
                    lemma_step_term_spaced(buf, h, off, i2, q, fuel);
                    lemma_spaced_concat(
                        buf,
                        star.0 + any.0 + set.0,
                        spec_step_term(buf, h, off, i2, q, fuel).0,
                    );
                }
            }
        }
    }
}

/// The close of one walk step emits only space-stored keys.
proof fn lemma_step_term_spaced(
    buf: Seq<u8>,
    h: TrieHeader,
    off: int,
    i2: int,
    q: Seq<u8>,
    fuel: nat,
)
    ensures
        keys_stored_spaced(buf, spec_step_term(buf, h, off, i2, q, fuel).0),
    decreases fuel, 0int,
{
    if fuel == 0 {
    } else {
        let node = spec_node_at(buf, off);
        let kids = sort_children(
            spec_children_at(buf, h, children_base(h, off), node.children_count as int),
        );
        let term = if i2 >= q.len() || q[i2] == 0 {
            spec_emit_values(
                buf,
                spec_values_at(buf, h, values_base(buf, h, off), node.values_count as int),
            )
        } else {
            (Seq::<(Seq<u8>, Seq<u8>)>::empty(), None::<HwdbError>)
        };
        if i2 >= q.len() || q[i2] == 0 {
            lemma_emit_values_spaced(
                buf,
                spec_values_at(buf, h, values_base(buf, h, off), node.values_count as int),
            );
        }
        if term.1 is Some {
        } else {
            let c = if i2 < q.len() {
                q[i2]
            } else {
                0u8
            };
            match spec_find_child(kids, c) {
                None => {},
                Some(ch) => {
                    lemma_step_spaced(
                        buf,
                        h,
                        ch.child_off as int,
                        min_int(i2 + 1, q.len() as int),
                        q,
                        (fuel - 1) as nat,
                    );
                    lemma_spaced_concat(
                        buf,
                        term.0,
                        spec_search_step(
                            buf,
                            h,
                            ch.child_off as int,
                            min_int(i2 + 1, q.len() as int),
                            q,
                            (fuel - 1) as nat,
                        ).0,
                    );
                },
            }
        }
    }
}

/// Law: every key a search emits begins in the database's string pool with
/// a single ASCII space, and is emitted with exactly that space removed.
pub proof fn lemma_search_keys_spaced(buf: Seq<u8>, h: TrieHeader, q: Seq<u8>)
    ensures
        keys_stored_spaced(buf, spec_search(buf, h, q).0),
{
    lemma_step_spaced(buf, h, h.nodes_root_off as int, 0, q, DESCENT_MAX as nat);
}

/// Law: a search is a function of the snapshot, the header and the query
/// alone, so looking the same query up twice on one snapshot yields
/// identical property sequences and identical outcomes.
pub proof fn lemma_search_deterministic(
    buf: Seq<u8>,
    h: TrieHeader,
    q: Seq<u8>,
    first: (Seq<(Seq<u8>, Seq<u8>)>, Option<HwdbError>),
    second: (Seq<(Seq<u8>, Seq<u8>)>, Option<HwdbError>),
)
    requires
        first == spec_search(buf, h, q),
        second == spec_search(buf, h, q),
    ensures
        first == second,
{
}


/// The walk from node `off` with next query position `i` reaches the node
/// at `t_off` along literal prefixes and literal edges alone, and the
/// query is exhausted there.
pub open spec fn literal_walk_to(
    buf: Seq<u8>,
    h: TrieHeader,
    off: int,
    i: int,
    q: Seq<u8>,
    fuel: nat,
    t_off: int,
) -> bool
    decreases fuel,
{
    if fuel == 0 || !entry_decodable(buf, h, off) {
        false
    } else {
        let node = spec_node_at(buf, off);
        if node.prefix_off != 0 && !string_ok(buf, node.prefix_off as int) {
            false
        } else {
            let pfx = if node.prefix_off == 0 {
                Seq::<u8>::empty()
            } else {
                string_at(buf, node.prefix_off as int)
            };
            let stop = scan_stop(pfx, q, i, 0);
            if stop < pfx.len() {
                false
            } else {
                let i2 = min_int(i + pfx.len(), q.len() as int);
                if i2 >= q.len() || q[i2] == 0 {
                    t_off == off
                } else {
                    let kids = sort_children(
                        spec_children_at(
                            buf,
                            h,
                            children_base(h, off),
                            node.children_count as int,
                        ),
                    );
                    match spec_find_child(kids, q[i2]) {
                        None => false,
                        Some(ch) => literal_walk_to(
                            buf,
                            h,
                            ch.child_off as int,
                            min_int(i2 + 1, q.len() as int),
                            q,
                            (fuel - 1) as nat,
                            t_off,
                        ),
                    }
                }
            }
        }
    }
}

/// The value records stored at the node at `t_off`, as they are emitted.
pub open spec fn terminal_emissions(buf: Seq<u8>, h: TrieHeader, t_off: int) -> Seq<
    (Seq<u8>, Seq<u8>),
> {
    spec_emit_values(
        buf,
        spec_values_at(
            buf,
            h,
            values_base(buf, h, t_off),
            spec_node_at(buf, t_off).values_count as int,
        ),
    ).0
}

/// `run` appears contiguously inside `big`.
pub open spec fn contains_run(
    big: Seq<(Seq<u8>, Seq<u8>)>,
    run: Seq<(Seq<u8>, Seq<u8>)>,
) -> bool {
    exists|a: int, b: int| 0 <= a <= b <= big.len() && big.subrange(a, b) == run
}

/// One error-free step whose literal walk reaches `t_off` emits that
/// node's values contiguously and in stored order.
#[verifier::rlimit(100)]
#[verifier::spinoff_prover]
proof fn lemma_literal_step(
    buf: Seq<u8>,
    h: TrieHeader,
    off: int,
    i: int,
    q: Seq<u8>,
    fuel: nat,
    t_off: int,
)
    requires
        spec_search_step(buf, h, off, i, q, fuel).1 is None,
        literal_walk_to(buf, h, off, i, q, fuel, t_off),
    ensures
        contains_run(spec_search_step(buf, h, off, i, q, fuel).0, terminal_emissions(buf, h, t_off)),
    decreases fuel,
{
    let node = spec_node_at(buf, off);
    let pfx = if node.prefix_off == 0 {
        Seq::<u8>::empty()
    } else {
        string_at(buf, node.prefix_off as int)
    };
    let i2 = min_int(i + pfx.len(), q.len() as int);
    let step = spec_search_step(buf, h, off, i, q, fuel);
    let tail = spec_step_tail(buf, h, off, i2, q, fuel);
    assert(step == tail);
    let kids = sort_children(
        spec_children_at(buf, h, children_base(h, off), node.children_count as int),
    );
    let qt = q.skip(i2);
    let star = match spec_find_child(kids, GLOB_STAR) {
        Some(ch) => spec_fnmatch(buf, h, seq![GLOB_STAR], ch.child_off as int, 0, qt, DESCENT_MAX as nat),
        None => (seq![], None),
    };
    let any = match spec_find_child(kids, GLOB_ANY) {
        Some(ch) => spec_fnmatch(buf, h, seq![GLOB_ANY], ch.child_off as int, 0, qt, DESCENT_MAX as nat),
        None => (seq![], None),
    };
    let set = match spec_find_child(kids, GLOB_SET) {
        Some(ch) => spec_fnmatch(buf, h, seq![GLOB_SET], ch.child_off as int, 0, qt, DESCENT_MAX as nat),
        None => (seq![], None),
    };
    assert(star.1 is None && any.1 is None && set.1 is None);
    let globs = star.0 + any.0 + set.0;
    let term = spec_step_term(buf, h, off, i2, q, fuel);
    assert(tail == (globs + term.0, term.1));
    let emitted = if i2 >= q.len() || q[i2] == 0 {
        spec_emit_values(
            buf,
            spec_values_at(buf, h, values_base(buf, h, off), node.values_count as int),
        )
    } else {
        (Seq::<(Seq<u8>, Seq<u8>)>::empty(), None::<HwdbError>)
    };
    if i2 >= q.len() || q[i2] == 0 {
        assert(t_off == off);
        let run = terminal_emissions(buf, h, t_off);
        assert(emitted.0 == run);
        let c = if i2 < q.len() {
            q[i2]
        } else {
            0u8
        };
        match spec_find_child(kids, c) {
            None => {
                assert(term.0 == emitted.0);
                assert(step.0.subrange(globs.len() as int, globs.len() as int + run.len() as int) =~= run);
            },
            Some(ch) => {
                let rest = spec_search_step(
                    buf,
                    h,
                    ch.child_off as int,
                    min_int(i2 + 1, q.len() as int),
                    q,
                    (fuel - 1) as nat,
                );
                assert(term.0 == emitted.0 + rest.0);
                assert(step.0.subrange(globs.len() as int, globs.len() as int + run.len() as int) =~= run);
            },
        }
        assert(contains_run(step.0, run));
    } else {
        let c = q[i2];
        let ch = spec_find_child(kids, c).unwrap();
        let rest = spec_search_step(
            buf,
            h,
            ch.child_off as int,
            min_int(i2 + 1, q.len() as int),
            q,
            (fuel - 1) as nat,
        );
        assert(emitted.0 =~= Seq::<(Seq<u8>, Seq<u8>)>::empty());
        assert(term.0 == emitted.0 + rest.0);
        assert(term.1 == rest.1);
        lemma_literal_step(buf, h, ch.child_off as int, min_int(i2 + 1, q.len() as int), q, (fuel - 1) as nat, t_off);
        let run = terminal_emissions(buf, h, t_off);
        let a = choose|a: int, b: int| 0 <= a <= b <= rest.0.len() && rest.0.subrange(a, b) == run;
        assert(0 <= a.0 <= a.1 <= rest.0.len() && rest.0.subrange(a.0, a.1) == run);
        let base = globs.len() as int + emitted.0.len() as int;
        assert(step.0.subrange(base + a.0, base + a.1) =~= rest.0.subrange(a.0, a.1));
        assert(contains_run(step.0, run));
    }
}

/// Law: when a query reaches a terminal node along purely literal prefixes
/// and edges and the whole search succeeds, the result contains every
/// value record of that terminal node, contiguously and in stored order.
pub proof fn lemma_literal_lookup_emits_terminal_values(
    buf: Seq<u8>,
    h: TrieHeader,
    q: Seq<u8>,
    t_off: int,
)
    requires
        spec_search(buf, h, q).1 is None,
        literal_walk_to(buf, h, h.nodes_root_off as int, 0, q, DESCENT_MAX as nat, t_off),
    ensures
        contains_run(spec_search(buf, h, q).0, terminal_emissions(buf, h, t_off)),
{
    lemma_literal_step(buf, h, h.nodes_root_off as int, 0, q, DESCENT_MAX as nat, t_off);
}

} // verus!
