//! End-to-end exercises of the database against fabricated binary images.

use udevrs::{HwdbError, TrieEntry, UdevHwdb};

const SIG: &[u8; 8] = b"KSLPHHRH";
const NODE_SIZE: u64 = 24;
const CHILD_SIZE: u64 = 16;
const VALUE_SIZE: u64 = 32;
const HEADER: usize = 80;

fn push_u64(buf: &mut Vec<u8>, v: u64) {
    buf.extend_from_slice(&v.to_le_bytes());
}

/// A little builder for on-disk database images: the header is reserved
/// first, strings and nodes are appended, and the root offset is patched
/// in at the end.
struct Db {
    buf: Vec<u8>,
}

impl Db {
    fn new() -> Db {
        let mut buf = Vec::new();
        buf.extend_from_slice(SIG);
        push_u64(&mut buf, 1); // tool_version
        push_u64(&mut buf, 0); // file_size, patched by finish
        push_u64(&mut buf, HEADER as u64);
        push_u64(&mut buf, NODE_SIZE);
        push_u64(&mut buf, CHILD_SIZE);
        push_u64(&mut buf, VALUE_SIZE);
        push_u64(&mut buf, 0); // strings_len
        push_u64(&mut buf, 0); // nodes_len
        push_u64(&mut buf, 0); // nodes_root_off, patched by finish
        Db { buf }
    }

    fn string(&mut self, s: &[u8]) -> u64 {
        let off = self.buf.len() as u64;
        self.buf.extend_from_slice(s);
        self.buf.push(0);
        off
    }

    /// Appends one node record with its child and value tables; children
    /// are written in the order given (the decoder sorts them).
    fn node(&mut self, prefix_off: u64, children: &[(u8, u64)], values: &[(u64, u64)]) -> u64 {
        let off = self.buf.len() as u64;
        push_u64(&mut self.buf, prefix_off);
        self.buf.push(children.len() as u8);
        self.buf.extend_from_slice(&[0u8; 7]);
        push_u64(&mut self.buf, values.len() as u64);
        for &(c, child_off) in children {
            self.buf.push(c);
            self.buf.extend_from_slice(&[0u8; 7]);
            push_u64(&mut self.buf, child_off);
        }
        for &(key_off, value_off) in values {
            push_u64(&mut self.buf, key_off);
            push_u64(&mut self.buf, value_off);
            self.buf.extend_from_slice(&[0u8; 16]);
        }
        off
    }

    fn finish(mut self, root_off: u64) -> Vec<u8> {
        let size = self.buf.len() as u64;
        self.buf[16..24].copy_from_slice(&size.to_le_bytes());
        self.buf[72..80].copy_from_slice(&root_off.to_le_bytes());
        self.buf
    }
}

fn props(db: &UdevHwdb) -> Vec<(String, String)> {
    let list = db.properties_list();
    let mut out = Vec::new();
    let mut i = 0;
    while let Some(e) = list.get(i) {
        out.push((
            String::from_utf8(e.name().clone()).unwrap(),
            String::from_utf8(e.value().clone()).unwrap(),
        ));
        i += 1;
    }
    out
}

/// A database holding the single literal entry
/// `usb:v1D6Bp0001 -> ID_VENDOR_FROM_DATABASE=Linux Foundation`.
fn usb_db() -> Vec<u8> {
    let mut db = Db::new();
    let pfx = db.string(b"sb:v1D6Bp0001");
    let key = db.string(b" ID_VENDOR_FROM_DATABASE");
    let val = db.string(b"Linux Foundation");
    let leaf = db.node(pfx, &[], &[(key, val)]);
    let root = db.node(0, &[(b'u', leaf)], &[]);
    db.finish(root)
}

#[test]
fn header_fields_parse() {
    let image = usb_db();
    let db = UdevHwdb::new(&image).unwrap();
    let h = db.header();
    assert_eq!(h.header_size, 80);
    assert_eq!(h.node_size, 24);
    assert_eq!(h.child_entry_size, 16);
    assert_eq!(h.value_entry_size, 32);
    assert_eq!(h.file_size, image.len() as u64);
}

#[test]
fn header_bad_signature_is_rejected() {
    let mut image = usb_db();
    image[0] = b'X';
    assert_eq!(UdevHwdb::new(&image).unwrap_err(), HwdbError::Header);
}

#[test]
fn header_short_buffer_is_rejected() {
    let image = vec![0u8; 79];
    assert_eq!(UdevHwdb::new(&image).unwrap_err(), HwdbError::Header);
}

#[test]
fn header_zero_record_size_is_rejected() {
    let mut image = usb_db();
    image[32..40].copy_from_slice(&0u64.to_le_bytes());
    assert_eq!(UdevHwdb::new(&image).unwrap_err(), HwdbError::Header);
}

#[test]
fn literal_lookup_finds_vendor() {
    let image = usb_db();
    let mut db = UdevHwdb::new(&image).unwrap();
    db.get_properties_list_entry(&image, &b"usb:v1D6Bp0001".to_vec(), 0).unwrap();
    assert_eq!(
        props(&db),
        vec![("ID_VENDOR_FROM_DATABASE".to_string(), "Linux Foundation".to_string())]
    );
}

#[test]
fn unmatched_modalias_yields_empty_list() {
    let image = usb_db();
    let mut db = UdevHwdb::new(&image).unwrap();
    db.get_properties_list_entry(&image, &b"usb:v0000p0000".to_vec(), 0).unwrap();
    assert_eq!(props(&db), Vec::<(String, String)>::new());
}

#[test]
fn glob_star_edge_matches_pci_vendor() {
    // pci:v00008086d00001C2D* -> ID_VENDOR_FROM_DATABASE=Intel Corporation
    let mut db = Db::new();
    let pfx = db.string(b"ci:v00008086d00001C2D");
    let key = db.string(b" ID_VENDOR_FROM_DATABASE");
    let val = db.string(b"Intel Corporation");
    let star_leaf = db.node(0, &[], &[(key, val)]);
    let mid = db.node(pfx, &[(b'*', star_leaf)], &[]);
    let root = db.node(0, &[(b'p', mid)], &[]);
    let image = db.finish(root);
    let mut h = UdevHwdb::new(&image).unwrap();
    h.get_properties_list_entry(&image, &b"pci:v00008086d00001C2D".to_vec(), 0).unwrap();
    let got = props(&h);
    assert_eq!(got.len(), 1);
    assert_eq!(got[0].0, "ID_VENDOR_FROM_DATABASE");
    assert!(got[0].1.contains("Intel"));
}

#[test]
fn root_offset_past_file_fails_lookup_with_bounds() {
    let mut db = Db::new();
    let root = db.node(0, &[], &[]);
    let mut image = db.finish(root);
    let size = image.len() as u64;
    image[72..80].copy_from_slice(&(size + 100).to_le_bytes());
    let mut h = UdevHwdb::new(&image).unwrap();
    let err = h.get_properties_list_entry(&image, &b"usb:v1D6Bp0001".to_vec(), 0).unwrap_err();
    assert_eq!(err, HwdbError::Bounds);
    assert_eq!(props(&h), Vec::<(String, String)>::new());
}

#[test]
fn key_offset_past_pool_fails_lookup_with_bounds() {
    let mut db = Db::new();
    let val = db.string(b"value");
    let leaf_key_off = 1_000_000u64;
    let leaf = db.node(0, &[], &[(leaf_key_off, val)]);
    let root = db.node(0, &[(b'a', leaf)], &[]);
    let image = db.finish(root);
    let mut h = UdevHwdb::new(&image).unwrap();
    let err = h.get_properties_list_entry(&image, &b"a".to_vec(), 0).unwrap_err();
    assert_eq!(err, HwdbError::Bounds);
}

#[test]
fn truncated_image_fails_lookup_with_bounds() {
    let image = usb_db();
    let mut h = UdevHwdb::new(&image).unwrap();
    let mut cut = image.clone();
    cut.truncate(image.len() - 10);
    let err = h.get_properties_list_entry(&cut, &b"usb:v1D6Bp0001".to_vec(), 0).unwrap_err();
    assert_eq!(err, HwdbError::Bounds);
}

#[test]
fn repeated_lookup_yields_identical_sequences() {
    let image = usb_db();
    let mut h = UdevHwdb::new(&image).unwrap();
    h.get_properties_list_entry(&image, &b"usb:v1D6Bp0001".to_vec(), 0).unwrap();
    let first = props(&h);
    h.get_properties_list_entry(&image, &b"usb:v1D6Bp0001".to_vec(), 0).unwrap();
    let second = props(&h);
    assert_eq!(first, second);
    assert_eq!(first.len(), 1);
}

#[test]
fn lookup_clears_previous_results() {
    let image = usb_db();
    let mut h = UdevHwdb::new(&image).unwrap();
    h.get_properties_list_entry(&image, &b"usb:v1D6Bp0001".to_vec(), 0).unwrap();
    assert_eq!(props(&h).len(), 1);
    h.add_property(&b" EXTRA".to_vec(), &b"1".to_vec()).unwrap();
    assert_eq!(props(&h).len(), 2);
    h.get_properties_list_entry(&image, &b"usb:v0000p0000".to_vec(), 0).unwrap();
    assert_eq!(props(&h), Vec::<(String, String)>::new());
}

#[test]
fn two_queries_give_disjoint_results() {
    let mut db = Db::new();
    let upfx = db.string(b"sb:x");
    let ppfx = db.string(b"ci:y");
    let ukey = db.string(b" FROM_USB");
    let uval = db.string(b"1");
    let pkey = db.string(b" FROM_PCI");
    let pval = db.string(b"2");
    let uleaf = db.node(upfx, &[], &[(ukey, uval)]);
    let pleaf = db.node(ppfx, &[], &[(pkey, pval)]);
    let root = db.node(0, &[(b'u', uleaf), (b'p', pleaf)], &[]);
    let image = db.finish(root);
    let mut h = UdevHwdb::new(&image).unwrap();
    h.get_properties_list_entry(&image, &b"usb:x".to_vec(), 0).unwrap();
    assert_eq!(props(&h), vec![("FROM_USB".to_string(), "1".to_string())]);
    h.get_properties_list_entry(&image, &b"pci:y".to_vec(), 0).unwrap();
    assert_eq!(props(&h), vec![("FROM_PCI".to_string(), "2".to_string())]);
}

#[test]
fn empty_query_emits_only_root_values() {
    let mut db = Db::new();
    let key = db.string(b" AT_ROOT");
    let val = db.string(b"yes");
    let root = db.node(0, &[], &[(key, val)]);
    let image = db.finish(root);
    let mut h = UdevHwdb::new(&image).unwrap();
    h.get_properties_list_entry(&image, &b"".to_vec(), 0).unwrap();
    assert_eq!(props(&h), vec![("AT_ROOT".to_string(), "yes".to_string())]);
}

#[test]
fn query_longer_than_any_path_matches_nothing() {
    let image = usb_db();
    let mut h = UdevHwdb::new(&image).unwrap();
    h.get_properties_list_entry(&image, &b"usb:v1D6Bp0001XYZ".to_vec(), 0).unwrap();
    assert_eq!(props(&h), Vec::<(String, String)>::new());
}

#[test]
fn nul_byte_ends_the_query() {
    let mut db = Db::new();
    let pfx = db.string(b"b");
    let key = db.string(b" SHORT");
    let val = db.string(b"ab");
    let leaf = db.node(pfx, &[], &[(key, val)]);
    let root = db.node(0, &[(b'a', leaf)], &[]);
    let image = db.finish(root);
    let mut h = UdevHwdb::new(&image).unwrap();
    h.get_properties_list_entry(&image, &b"ab\0cd".to_vec(), 0).unwrap();
    assert_eq!(props(&h), vec![("SHORT".to_string(), "ab".to_string())]);
}

#[test]
fn childless_root_returns_empty() {
    let mut db = Db::new();
    let root = db.node(0, &[], &[]);
    let image = db.finish(root);
    let mut h = UdevHwdb::new(&image).unwrap();
    h.get_properties_list_entry(&image, &b"x".to_vec(), 0).unwrap();
    assert_eq!(props(&h), Vec::<(String, String)>::new());
}

#[test]
fn prefix_opening_with_glob_matches() {
    let mut db = Db::new();
    let pfx = db.string(b"*");
    let key = db.string(b" WILD");
    let val = db.string(b"v");
    let leaf = db.node(pfx, &[], &[(key, val)]);
    let root = db.node(0, &[(b'x', leaf)], &[]);
    let image = db.finish(root);
    let mut h = UdevHwdb::new(&image).unwrap();
    h.get_properties_list_entry(&image, &b"xanything".to_vec(), 0).unwrap();
    assert_eq!(props(&h), vec![("WILD".to_string(), "v".to_string())]);
}

#[test]
fn bracket_range_in_prefix_matches_digit() {
    let mut db = Db::new();
    let pfx = db.string(b"[0-9]z");
    let key = db.string(b" DIGIT");
    let val = db.string(b"v");
    let leaf = db.node(pfx, &[], &[(key, val)]);
    let root = db.node(0, &[(b'a', leaf)], &[]);
    let image = db.finish(root);
    let mut h = UdevHwdb::new(&image).unwrap();
    h.get_properties_list_entry(&image, &b"a5z".to_vec(), 0).unwrap();
    assert_eq!(props(&h), vec![("DIGIT".to_string(), "v".to_string())]);
    h.get_properties_list_entry(&image, &b"axz".to_vec(), 0).unwrap();
    assert_eq!(props(&h), Vec::<(String, String)>::new());
}

#[test]
fn glob_edges_descend_in_star_question_bracket_order() {
    let mut db = Db::new();
    let key = db.string(b" K");
    let star_val = db.string(b"star");
    let qm_val = db.string(b"question");
    let set_pfx = db.string(b"a]");
    let set_val = db.string(b"set");
    let star_leaf = db.node(0, &[], &[(key, star_val)]);
    let qm_leaf = db.node(0, &[], &[(key, qm_val)]);
    let set_leaf = db.node(set_pfx, &[], &[(key, set_val)]);
    // Children written deliberately out of order; the decoder sorts them.
    let root = db.node(0, &[(b'[', set_leaf), (b'?', qm_leaf), (b'*', star_leaf)], &[]);
    let image = db.finish(root);
    let mut h = UdevHwdb::new(&image).unwrap();
    h.get_properties_list_entry(&image, &b"a".to_vec(), 0).unwrap();
    assert_eq!(
        props(&h),
        vec![
            ("K".to_string(), "star".to_string()),
            ("K".to_string(), "question".to_string()),
            ("K".to_string(), "set".to_string()),
        ]
    );
}

#[test]
fn oversized_glob_pattern_overflows_the_line() {
    let mut db = Db::new();
    let mut long = vec![b'*'];
    long.extend(std::iter::repeat(b'x').take(2500));
    let pfx = db.string(&long);
    let key = db.string(b" K");
    let val = db.string(b"v");
    let leaf = db.node(pfx, &[], &[(key, val)]);
    let root = db.node(0, &[(b'q', leaf)], &[]);
    let image = db.finish(root);
    let mut h = UdevHwdb::new(&image).unwrap();
    let err = h.get_properties_list_entry(&image, &b"q".to_vec(), 0).unwrap_err();
    assert_eq!(err, HwdbError::LineOverflow);
}

#[test]
fn add_property_strips_one_leading_space() {
    let image = usb_db();
    let mut h = UdevHwdb::new(&image).unwrap();
    h.add_property(&b" NAME".to_vec(), &b"v1".to_vec()).unwrap();
    h.add_property(&b"IGNORED".to_vec(), &b"v2".to_vec()).unwrap();
    h.add_property(&b"  TWO".to_vec(), &b"v3".to_vec()).unwrap();
    assert_eq!(
        props(&h),
        vec![("NAME".to_string(), "v1".to_string()), (" TWO".to_string(), "v3".to_string())]
    );
}

#[test]
fn entry_tables_are_sorted_and_child_lookup_works() {
    let mut db = Db::new();
    let leaf_a = db.node(0, &[], &[]);
    let leaf_b = db.node(0, &[], &[]);
    let root = db.node(0, &[(b'b', leaf_b), (b'a', leaf_a)], &[]);
    let image = db.finish(root);
    let h = UdevHwdb::new(&image).unwrap();
    let entry = TrieEntry::parse(h.header(), &image, root as usize).unwrap();
    assert_eq!(entry.node().children_count, 2);
    assert_eq!(entry.children()[0].c, b'a');
    assert_eq!(entry.children()[1].c, b'b');
    assert_eq!(entry.children()[0].child_off, leaf_a);
    assert_eq!(entry.values().len(), 0);
    assert_eq!(entry.len(h.header()), 24 + 2 * 16);
    assert!(entry.lookup_child(h.header(), &image, b'a').is_some());
    assert!(entry.lookup_child(h.header(), &image, b'z').is_none());
    let leaf = TrieEntry::parse(h.header(), &image, leaf_a as usize).unwrap();
    assert_eq!(leaf.node().prefix_off, 0);
    assert_eq!(leaf.len(h.header()), 24);
}

#[test]
fn truncated_entry_parse_is_bounds() {
    let image = usb_db();
    let h = UdevHwdb::new(&image).unwrap();
    let err = TrieEntry::parse(h.header(), &image, image.len() - 4).unwrap_err();
    assert_eq!(err, HwdbError::Bounds);
}

#[test]
fn default_record_sizes_match_the_layout() {
    assert_eq!(udevrs::node_size(), 24);
    assert_eq!(udevrs::child_entry_size(), 16);
    assert_eq!(udevrs::value_entry_size(), 32);
}

#[test]
fn trie_string_reads_until_nul_and_checks_bounds() {
    let buf = b"ab\0cd".to_vec();
    assert_eq!(udevrs::trie_string(&buf, 0).unwrap(), b"ab".to_vec());
    assert_eq!(udevrs::trie_string(&buf, 3).unwrap_err(), HwdbError::Bounds);
    assert_eq!(udevrs::trie_string(&buf, 99).unwrap_err(), HwdbError::Bounds);
}

#[test]
fn parse_nodes_scans_the_nodes_region() {
    // Two bare nodes right after the header; nodes_len is taken as the
    // scan's end position, as the linear scan interprets it.
    let mut db = Db::new();
    let first = db.node(0, &[], &[]);
    let _second = db.node(0, &[], &[]);
    let end = db.buf.len() as u64;
    db.buf[64..72].copy_from_slice(&end.to_le_bytes());
    for _ in 0..120 {
        db.buf.push(0);
    }
    let image = db.finish(first);
    let h = UdevHwdb::new(&image).unwrap();
    let nodes = UdevHwdb::parse_nodes(h.header(), &image);
    assert_eq!(nodes.len(), 2);
    assert_eq!(nodes[0].node().children_count, 0);
}

#[test]
fn literal_terminal_emits_every_value_in_stored_order() {
    let mut db = Db::new();
    let pfx = db.string(b"b");
    let k1 = db.string(b" FIRST");
    let v1 = db.string(b"1");
    let k2 = db.string(b" SECOND");
    let v2 = db.string(b"2");
    let k3 = db.string(b"NOSPACE");
    let v3 = db.string(b"3");
    let leaf = db.node(pfx, &[], &[(k1, v1), (k2, v2), (k3, v3)]);
    let root = db.node(0, &[(b'a', leaf)], &[]);
    let image = db.finish(root);
    let mut h = UdevHwdb::new(&image).unwrap();
    h.get_properties_list_entry(&image, &b"ab".to_vec(), 0).unwrap();
    assert_eq!(
        props(&h),
        vec![("FIRST".to_string(), "1".to_string()), ("SECOND".to_string(), "2".to_string())]
    );
}
