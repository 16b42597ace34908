//! The property list a lookup fills: named byte-string pairs held in
//! insertion order.

use vstd::prelude::*;

verus! {

/// One property: a name and a value, both byte strings (UTF-8 in practice,
/// but nothing here depends on that).
#[derive(Debug)]
pub struct UdevEntry {
    name: Vec<u8>,
    value: Vec<u8>,
}

impl UdevEntry {
    /// The property name.
    pub closed spec fn spec_name(&self) -> Seq<u8> {
        self.name@
    }

    /// The property value.
    pub closed spec fn spec_value(&self) -> Seq<u8> {
        self.value@
    }

    /// Gets the property name.
    pub fn name(&self) -> (r: &Vec<u8>)
        ensures
            r@ == self.spec_name(),
    {
        &self.name
    }

    /// Gets the property value.
    pub fn value(&self) -> (r: &Vec<u8>)
        ensures
            r@ == self.spec_value(),
    {
        &self.value
    }
}

/// The pair of byte strings an entry holds.
pub open spec fn entry_pair(e: UdevEntry) -> (Seq<u8>, Seq<u8>) {
    (e.spec_name(), e.spec_value())
}

/// A list of properties in insertion order.
#[derive(Debug)]
pub struct UdevList {
    entries: Vec<UdevEntry>,
}

impl View for UdevList {
    type V = Seq<(Seq<u8>, Seq<u8>)>;

    closed spec fn view(&self) -> Seq<(Seq<u8>, Seq<u8>)> {
        self.entries@.map_values(|e: UdevEntry| entry_pair(e))
    }
}

impl UdevList {
    /// An empty list.
    pub fn new() -> (r: UdevList)
        ensures
            r@ == Seq::<(Seq<u8>, Seq<u8>)>::empty(),
    {
        let l = UdevList { entries: Vec::new() };
        proof {
            assert(l@ =~= Seq::<(Seq<u8>, Seq<u8>)>::empty());
        }
        l
    }

    /// Drops every entry.
    pub fn clear(&mut self)
        ensures
            final(self)@ == Seq::<(Seq<u8>, Seq<u8>)>::empty(),
    {
        self.entries.clear();
        proof {
            assert(self@ =~= Seq::<(Seq<u8>, Seq<u8>)>::empty());
        }
    }

    /// Appends one entry, copying both strings.
    pub fn add_entry(&mut self, name: &Vec<u8>, value: &Vec<u8>) -> (r: bool)
        ensures
            r == true,
            final(self)@ == old(self)@.push((name@, value@)),
    {
        let e = UdevEntry { name: copy_tail(name, 0), value: copy_tail(value, 0) };
        proof {
            assert(name@.skip(0) =~= name@);
            assert(value@.skip(0) =~= value@);
        }
        self.entries.push(e);
        proof {
            assert(self@ =~= old(self)@.push((name@, value@)));
        }
        true
    }

    /// The number of entries.
    pub fn len(&self) -> (r: usize)
        ensures
            r == self@.len(),
    {
        self.entries.len()
    }

    /// Gets the `i`-th entry in insertion order.
    pub fn get(&self, i: usize) -> (r: Option<&UdevEntry>)
        ensures
            match r {
                Some(e) => i < self@.len() && entry_pair(*e) == self@[i as int],
                None => i >= self@.len(),
            },
    {
        if i < self.entries.len() {
            Some(&self.entries[i])
        } else {
            None
        }
    }
}

/// ASCII space, the on-disk marker in front of every real property key.
pub const PROP_SPACE: u8 = 32;

/// What the property sink makes of one key/value pair: a key opening with
/// a single ASCII space is forwarded with that space stripped; any other
/// key is silently dropped, being reserved for future extensions.
pub open spec fn prop_emits(key: Seq<u8>, value: Seq<u8>) -> Seq<(Seq<u8>, Seq<u8>)> {
    if key.len() > 0 && key[0] == PROP_SPACE {
        seq![(key.skip(1), value)]
    } else {
        seq![]
    }
}

/// Puts one key/value pair through the leading-space rule and into the
/// list.
pub fn add_checked(list: &mut UdevList, key: &Vec<u8>, value: &Vec<u8>)
    ensures
        final(list)@ == old(list)@ + prop_emits(key@, value@),
{
    if key.len() > 0 && key[0] == PROP_SPACE {
        let stripped = copy_tail(key, 1);
        let _ = list.add_entry(&stripped, value);
        proof {
            assert(list@ =~= old(list)@ + prop_emits(key@, value@));
        }
    } else {
        proof {
            assert(list@ =~= old(list)@ + prop_emits(key@, value@));
        }
    }
}

/// Copies `s[from..]` into a fresh vector.
pub fn copy_tail(s: &Vec<u8>, from: usize) -> (r: Vec<u8>)
    requires
        from <= s@.len(),
    ensures
        r@ == s@.skip(from as int),
{
    let mut out: Vec<u8> = Vec::new();
    let mut k: usize = from;
    while k < s.len()
        invariant
            from <= k <= s@.len(),
            out@ == s@.subrange(from as int, k as int),
        decreases s@.len() - k,
    {
        out.push(s[k]);
        proof {
            assert(out@ =~= s@.subrange(from as int, k + 1));
        }
        k = k + 1;
    }
    proof {
        assert(s@.subrange(from as int, s@.len() as int) =~= s@.skip(from as int));
    }
    out
}

} // verus!
