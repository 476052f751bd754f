use git_pack::bundle::{index_pack, IndexError};
use git_pack::count::{CapacityExceeded, CountBytes};
use git_pack::delta::apply_delta;
use git_pack::delta_tree::{build_tree, TreeError};
use git_pack::index_file::{encode_index, fanout, EncodeError, IndexEntry};
use git_pack::pack_data::{decode_entry_header, decode_pack, decode_pack_header, DecodeError, EntryHeader, ObjectKind, PackVersion};
use git_pack::traverse::compute_object_id;

fn zlib(data: &[u8]) -> Vec<u8> {
    let mut w = git_features::zlib::stream::deflate::Write::new(Vec::new());
    std::io::Write::write_all(&mut w, data).unwrap();
    std::io::Write::flush(&mut w).unwrap();
    w.into_inner()
}

fn sha1(data: &[u8]) -> [u8; 20] {
    let mut h = git_features::hash::Sha1::default();
    h.update(data);
    h.digest()
}

fn hex(b: &[u8]) -> String {
    b.iter().map(|x| format!("{:02x}", x)).collect()
}

fn entry_header(kind: u8, size: usize) -> Vec<u8> {
    let mut out = Vec::new();
    let mut first = (kind << 4) | (size & 0x0f) as u8;
    let mut rest = size >> 4;
    if rest > 0 {
        first |= 0x80;
    }
    out.push(first);
    while rest > 0 {
        let mut b = (rest & 0x7f) as u8;
        rest >>= 7;
        if rest > 0 {
            b |= 0x80;
        }
        out.push(b);
    }
    out
}

fn ofs_distance(mut d: u64) -> Vec<u8> {
    let mut bytes = vec![(d & 0x7f) as u8];
    d >>= 7;
    while d > 0 {
        d -= 1;
        bytes.push(0x80 | (d & 0x7f) as u8);
        d >>= 7;
    }
    bytes.reverse();
    bytes
}

fn size_varint(mut n: usize) -> Vec<u8> {
    let mut out = Vec::new();
    loop {
        let mut b = (n & 0x7f) as u8;
        n >>= 7;
        if n > 0 {
            b |= 0x80;
        }
        out.push(b);
        if n == 0 {
            return out;
        }
    }
}

/// A delta that copies all of a base of `len` bytes (`len` below 256).
fn copy_all_delta(len: usize) -> Vec<u8> {
    let mut d = size_varint(len);
    d.extend(size_varint(len));
    d.push(0x90);
    d.push(len as u8);
    d
}

enum Piece<'a> {
    Object(u8, &'a [u8]),
    Ofs(u64, &'a [u8]),
}

fn build_pack(pieces: &[Piece]) -> Vec<u8> {
    let mut pack = b"PACK".to_vec();
    pack.extend(2u32.to_be_bytes());
    pack.extend((pieces.len() as u32).to_be_bytes());
    let mut offsets = Vec::new();
    for p in pieces {
        let here = pack.len() as u64;
        offsets.push(here);
        match p {
            Piece::Object(kind, data) => {
                pack.extend(entry_header(*kind, data.len()));
                pack.extend(zlib(data));
            }
            Piece::Ofs(base_index, delta) => {
                pack.extend(entry_header(6, delta.len()));
                pack.extend(ofs_distance(here - offsets[*base_index as usize]));
                pack.extend(zlib(delta));
            }
        }
    }
    let trailer = sha1(&pack);
    pack.extend(trailer);
    pack
}

#[test]
fn count_bytes_counts_and_appends() {
    let mut c = CountBytes::new(vec![1u8]);
    assert_eq!(c.write(&[2, 3]), Ok(2));
    assert_eq!(c.count, 2);
    assert_eq!(c.into_inner(), vec![1, 2, 3]);
}

#[test]
fn count_bytes_refuses_to_pass_four_gigabytes() {
    let mut c = CountBytes::new(Vec::new());
    c.count = u32::MAX - 1;
    assert_eq!(c.write(&[1, 2]), Err(CapacityExceeded));
    assert_eq!(c.count, u32::MAX - 1);
    assert!(c.inner.is_empty());
    assert_eq!(c.write(&[1]), Ok(1));
    assert_eq!(c.count, u32::MAX);
}

#[test]
fn fanout_counts_first_bytes_up_to_each_value() {
    let t = fanout(&vec![0, 0, 3, 255]);
    assert_eq!(t.len(), 256);
    assert_eq!(t[0], 2);
    assert_eq!(t[1], 2);
    assert_eq!(t[2], 2);
    assert_eq!(t[3], 3);
    assert_eq!(t[254], 3);
    assert_eq!(t[255], 4);
    let empty = fanout(&Vec::new());
    assert!(empty.iter().all(|v| *v == 0));
}

#[test]
fn pack_header_is_checked() {
    let mut h = b"PACK".to_vec();
    h.extend(2u32.to_be_bytes());
    h.extend(7u32.to_be_bytes());
    assert_eq!(decode_pack_header(&h), Some((PackVersion::V2, 7)));
    let mut v3 = h.clone();
    v3[7] = 3;
    assert_eq!(decode_pack_header(&v3), Some((PackVersion::V3, 7)));
    let mut v4 = h.clone();
    v4[7] = 4;
    assert_eq!(decode_pack_header(&v4), None);
    let mut bad = h.clone();
    bad[0] = b'X';
    assert_eq!(decode_pack_header(&bad), None);
    assert_eq!(decode_pack_header(&h[..11]), None);
}

#[test]
fn entry_headers_decode_sizes_and_bases() {
    let h = entry_header(3, 300);
    assert_eq!(decode_entry_header(&h, 0), Some((EntryHeader::Object(ObjectKind::Blob), 300, 2)));
    let mut d = entry_header(6, 5);
    d.extend(ofs_distance(200));
    assert_eq!(decode_entry_header(&d, 0), Some((EntryHeader::OfsDelta { base_distance: 200 }, 5, 3)));
    let mut r = entry_header(7, 1);
    r.extend([7u8; 20]);
    assert_eq!(decode_entry_header(&r, 0), Some((EntryHeader::RefDelta { base_id: [7u8; 20] }, 1, 21)));
    assert_eq!(decode_entry_header(&[0x50], 0), None);
    assert_eq!(decode_entry_header(&[0x80 | 0x30], 0), None);
}

#[test]
fn two_blob_pack_is_indexed() {
    let pack = build_pack(&[Piece::Object(3, b"hello\n"), Piece::Object(3, b"world\n")]);
    let out = index_pack(&pack).unwrap();
    assert_eq!(out.records.len(), 2);
    assert_eq!(hex(&out.records[0].id), "cc628ccd10742baea8241c5924df992b5c019f71");
    assert_eq!(hex(&out.records[1].id), "ce013625030ba8dba906f756967f9e9ca394464a");
    assert_eq!(out.records[0].pack_offset > out.records[1].pack_offset, true);
    assert_eq!(out.records[1].pack_offset, 12);
    assert_eq!(out.data_hash.to_vec(), pack[pack.len() - 20..].to_vec());
    assert_eq!(out.pack, pack);
    assert_eq!(out.statistics.num_blobs, 2);
    assert_eq!(out.statistics.objects_per_chain_length, vec![2]);
    let idx = &out.index;
    assert_eq!(&idx[..8], &[0xff, 0x74, 0x4f, 0x63, 0, 0, 0, 2]);
    let fan = |b: usize| u32::from_be_bytes(idx[8 + 4 * b..12 + 4 * b].try_into().unwrap());
    assert_eq!(fan(0xcb), 0);
    assert_eq!(fan(0xcc), 1);
    assert_eq!(fan(0xcd), 1);
    assert_eq!(fan(0xce), 2);
    assert_eq!(fan(255), 2);
    assert_eq!(idx.len(), 8 + 1024 + 2 * 28 + 40);
    let body_len = idx.len() - 20;
    assert_eq!(sha1(&idx[..body_len]).to_vec(), idx[body_len..].to_vec());
    assert_eq!(out.index_hash.to_vec(), idx[body_len..].to_vec());
    assert_eq!(idx[body_len - 20..body_len].to_vec(), out.data_hash.to_vec());
}

#[test]
fn ofs_delta_reproduces_its_base() {
    let t0: &[u8] = b"100644 a\0aaaaaaaaaaaaaaaaaaaa";
    let delta = copy_all_delta(t0.len());
    let pack = build_pack(&[Piece::Object(2, t0), Piece::Ofs(0, &delta)]);
    let decoded = decode_pack(&pack).unwrap();
    let tree = build_tree(&decoded.entries, decoded.pack_end, &Vec::new()).unwrap();
    let walked = git_pack::traverse::traverse(&pack, &tree).unwrap();
    assert_eq!(walked.objects[0].kind, ObjectKind::Tree);
    assert_eq!(walked.objects[1].kind, ObjectKind::Tree);
    assert_eq!(walked.objects[1].level, 1);
    assert_eq!(walked.objects[1].object_size, t0.len() as u64);
    let out = index_pack(&pack).unwrap();
    assert_eq!(out.records.len(), 2);
    let expected = compute_object_id(ObjectKind::Tree, t0);
    assert_eq!(out.records[0].id, expected);
    assert_eq!(out.records[1].id, expected);
    let mut offsets: Vec<u64> = out.records.iter().map(|r| r.pack_offset).collect();
    offsets.sort();
    assert_eq!(offsets[0], 12);
    assert_eq!(out.statistics.objects_per_chain_length, vec![1, 1]);
    assert_eq!(out.statistics.num_trees, 2);
}

#[test]
fn deep_delta_chain_resolves() {
    let base: &[u8] = b"the same content all the way down\n";
    let delta = copy_all_delta(base.len());
    let mut pieces = vec![Piece::Object(3, base)];
    for i in 0..50u64 {
        pieces.push(Piece::Ofs(i, &delta));
    }
    let pack = build_pack(&pieces);
    let decoded = decode_pack(&pack).unwrap();
    let tree = build_tree(&decoded.entries, decoded.pack_end, &Vec::new()).unwrap();
    assert_eq!(tree.nodes.len(), 51);
    assert_eq!(tree.nodes[50].level, 50);
    assert_eq!(tree.nodes[50].parent, Some(49));
    assert_eq!(tree.roots, vec![0]);
    for n in &tree.nodes {
        if let Some(p) = n.parent {
            assert!(tree.nodes[p].entry.pack_offset < n.entry.pack_offset);
        }
    }
    let out = index_pack(&pack).unwrap();
    assert_eq!(out.records.len(), 51);
    assert_eq!(out.statistics.objects_per_chain_length.len(), 51);
    assert!(out.statistics.objects_per_chain_length.iter().all(|c| *c == 1));
    assert_eq!(out.statistics.average.num_deltas, 25);
}

#[test]
fn corrupted_trailer_is_a_checksum_mismatch() {
    let mut pack = build_pack(&[Piece::Object(3, b"hello\n")]);
    let last = pack.len() - 1;
    pack[last] ^= 0xff;
    assert_eq!(decode_pack(&pack).err(), Some(DecodeError::PackChecksumMismatch));
    match index_pack(&pack) {
        Err(IndexError::Decode(DecodeError::PackChecksumMismatch)) => {}
        _ => panic!("expected a checksum mismatch"),
    }
}

#[test]
fn empty_pack_has_the_well_known_name() {
    let pack = build_pack(&[]);
    let out = index_pack(&pack).unwrap();
    assert_eq!(hex(&out.data_hash), "029d08823bd8a8eab510ad6ac75c823cfd3ed31e");
    assert!(out.records.is_empty());
    assert_eq!(out.index.len(), 8 + 1024 + 40);
    assert_eq!(out.statistics.average.num_deltas, 0);
}

#[test]
fn truncated_pack_is_refused() {
    let pack = build_pack(&[Piece::Object(3, b"hello\n")]);
    assert_eq!(decode_pack(&pack[..pack.len() - 5]).err(), Some(DecodeError::UnexpectedEnd));
    let cut = &pack[..14];
    match decode_pack(cut).err() {
        Some(DecodeError::Inflate { offset: 12 }) => {}
        other => panic!("unexpected {:?}", other),
    }
    let mut claims_more = pack.clone();
    claims_more[11] = 2;
    assert!(decode_pack(&claims_more).is_err());
}

#[test]
fn large_offsets_go_to_the_second_table() {
    let entries = vec![
        IndexEntry { id: [1u8; 20], pack_offset: 12, crc32: 0xdeadbeef },
        IndexEntry { id: [2u8; 20], pack_offset: 0x1_0000_0000, crc32: 7 },
    ];
    let (idx, hash) = encode_index(&entries, &[9u8; 20]).unwrap();
    assert_eq!(idx.len(), 8 + 1024 + 2 * 28 + 8 + 40);
    let ids = 8 + 1024;
    let crcs = ids + 40;
    let small = crcs + 8;
    let large = small + 8;
    assert_eq!(&idx[crcs..crcs + 4], &[0xde, 0xad, 0xbe, 0xef]);
    assert_eq!(&idx[small..small + 4], &[0, 0, 0, 12]);
    assert_eq!(&idx[small + 4..small + 8], &[0x80, 0, 0, 0]);
    assert_eq!(&idx[large..large + 8], &[0, 0, 0, 1, 0, 0, 0, 0]);
    assert_eq!(&idx[large + 8..large + 28], &[9u8; 20]);
    assert_eq!(hash.to_vec(), idx[idx.len() - 20..].to_vec());
    assert_eq!(sha1(&idx[..idx.len() - 20]), hash);
}

#[test]
fn offset_at_the_threshold_stays_small() {
    let entries = vec![IndexEntry { id: [1u8; 20], pack_offset: 0x7fff_ffff, crc32: 0 }];
    let (idx, _) = encode_index(&entries, &[0u8; 20]).unwrap();
    assert_eq!(idx.len(), 8 + 1024 + 28 + 40);
    let small = 8 + 1024 + 20 + 4;
    assert_eq!(&idx[small..small + 4], &[0x7f, 0xff, 0xff, 0xff]);
    let _ = EncodeError::CapacityExceeded;
}

#[test]
fn deltas_copy_and_insert() {
    let base = b"0123456789";
    let mut d = size_varint(10);
    d.extend(size_varint(7));
    d.extend([0x91, 2, 3]);
    d.extend([4, b'a', b'b', b'c', b'd']);
    assert_eq!(apply_delta(base, &d), Some(b"234abcd".to_vec()));
    let mut wrong_base = size_varint(11);
    wrong_base.extend(size_varint(0));
    assert_eq!(apply_delta(base, &wrong_base), None);
    let mut out_of_range = size_varint(10);
    out_of_range.extend(size_varint(5));
    out_of_range.extend([0x91, 8, 5]);
    assert_eq!(apply_delta(base, &out_of_range), None);
    let mut reserved = size_varint(10);
    reserved.extend(size_varint(0));
    reserved.push(0);
    assert_eq!(apply_delta(base, &reserved), None);
}

#[test]
fn delta_tree_errors() {
    let good = build_pack(&[Piece::Object(3, b"x")]);
    let decoded = decode_pack(&good).unwrap();
    let mut entries = decoded.entries.clone();
    let mut bad = entries[0];
    bad.header = EntryHeader::OfsDelta { base_distance: 0 };
    entries[0] = bad;
    assert_eq!(build_tree(&entries, 0, &Vec::new()).err(), Some(TreeError::OutOfOrderDelta { offset: 12 }));
    bad.header = EntryHeader::OfsDelta { base_distance: 5 };
    entries[0] = bad;
    assert_eq!(build_tree(&entries, 0, &Vec::new()).err(), Some(TreeError::MissingBase { offset: 12 }));
    bad.header = EntryHeader::RefDelta { base_id: [0u8; 20] };
    entries[0] = bad;
    assert_eq!(build_tree(&entries, 0, &Vec::new()).err(), Some(TreeError::MissingBase { offset: 12 }));
}

#[test]
fn object_ids_hash_header_and_bytes() {
    assert_eq!(hex(&compute_object_id(ObjectKind::Blob, b"hello\n")), "ce013625030ba8dba906f756967f9e9ca394464a");
    assert_eq!(hex(&compute_object_id(ObjectKind::Blob, b"")), "e69de29bb2d1d6434b8b29ae775ad8c2e48c5391");
    assert_eq!(hex(&compute_object_id(ObjectKind::Tree, b"")), "4b825dc642cb6eb9a060e54bf8d69288fbee4904");
}

#[test]
fn indexing_its_own_output_gives_the_same_names() {
    let pack = build_pack(&[Piece::Object(3, b"hello\n"), Piece::Object(1, b"tree x\n"), Piece::Object(3, b"world\n")]);
    let first = index_pack(&pack).unwrap();
    let second = index_pack(&first.pack).unwrap();
    assert_eq!(first.pack, second.pack);
    assert_eq!(first.data_hash, second.data_hash);
    assert_eq!(first.index_hash, second.index_hash);
    assert_eq!(first.index, second.index);
}

#[test]
fn processing_order_does_not_change_the_index() {
    let pack = build_pack(&[Piece::Object(3, b"hello\n"), Piece::Object(2, b"t"), Piece::Object(3, b"world\n")]);
    let out = index_pack(&pack).unwrap();
    let mut shuffled = out.records.clone();
    shuffled.reverse();
    shuffled.swap(0, 1);
    shuffled.sort_by_key(|e| e.id);
    let (again, hash) = encode_index(&shuffled, &out.data_hash).unwrap();
    assert_eq!(again, out.index);
    assert_eq!(hash, out.index_hash);
}

#[test]
fn records_carry_the_crc_of_their_entry() {
    let pack = build_pack(&[Piece::Object(3, b"hello\n")]);
    let out = index_pack(&pack).unwrap();
    let entry_bytes = &pack[12..pack.len() - 20];
    assert_eq!(out.records[0].crc32, git_features::hash::crc32(entry_bytes));
    assert_ne!(out.records[0].crc32, 0);
}

struct Collect {
    seen: Vec<(ObjectKind, Vec<u8>, u64)>,
    fail_on: Option<u64>,
}

impl git_pack::traverse::ObjectProcessor<String> for Collect {
    fn process(&mut self, kind: ObjectKind, data: &[u8], entry: &IndexEntry) -> Result<(), String> {
        if self.fail_on == Some(entry.pack_offset) {
            return Err(format!("refused {}", entry.pack_offset));
        }
        self.seen.push((kind, data.to_vec(), entry.pack_offset));
        Ok(())
    }
}

fn pack_with_a_broken_delta() -> Vec<u8> {
    let bad_delta = vec![99u8, 1, 0x90, 1];
    build_pack(&[Piece::Object(3, b"hello\n"), Piece::Ofs(0, &bad_delta), Piece::Object(3, b"world\n")])
}

#[test]
fn processor_sees_every_object_in_pack_order() {
    let pack = build_pack(&[Piece::Object(3, b"hello\n"), Piece::Object(2, b"t")]);
    let decoded = decode_pack(&pack).unwrap();
    let tree = build_tree(&decoded.entries, decoded.pack_end, &Vec::new()).unwrap();
    let mut p = Collect { seen: Vec::new(), fail_on: None };
    let out = git_pack::traverse::traverse_with_processor(&pack, &tree, git_pack::traverse::SafetyCheck::All, &mut p)
        .ok()
        .unwrap();
    assert_eq!(out.records.len(), 2);
    assert!(out.skipped.is_empty());
    assert_eq!(p.seen.len(), 2);
    assert_eq!(p.seen[0], (ObjectKind::Blob, b"hello\n".to_vec(), 12));
    assert_eq!(p.seen[1].0, ObjectKind::Tree);
    let mut refusing = Collect { seen: Vec::new(), fail_on: Some(12) };
    match git_pack::traverse::traverse_with_processor(&pack, &tree, git_pack::traverse::SafetyCheck::All, &mut refusing) {
        Err(git_pack::traverse::ProcessError::Processor(msg)) => assert_eq!(msg, "refused 12"),
        _ => panic!("the processor's error must end the traversal"),
    }
}

#[test]
fn permissive_check_passes_over_undecodable_objects() {
    let pack = pack_with_a_broken_delta();
    let decoded = decode_pack(&pack).unwrap();
    let tree = build_tree(&decoded.entries, decoded.pack_end, &Vec::new()).unwrap();
    let mut p = Collect { seen: Vec::new(), fail_on: None };
    let out = git_pack::traverse::traverse_with_processor(
        &pack,
        &tree,
        git_pack::traverse::SafetyCheck::SkipFileAndObjectChecksumVerification,
        &mut p,
    )
    .ok()
    .unwrap();
    assert_eq!(out.records.len(), 2);
    assert_eq!(out.skipped, vec![decoded.entries[1].pack_offset]);
    assert_eq!(p.seen.len(), 2);
    let mut strict = Collect { seen: Vec::new(), fail_on: None };
    match git_pack::traverse::traverse_with_processor(&pack, &tree, git_pack::traverse::SafetyCheck::All, &mut strict) {
        Err(git_pack::traverse::ProcessError::PackDecode { offset }) => assert_eq!(offset, decoded.entries[1].pack_offset),
        _ => panic!("a decode error is fatal under full checking"),
    }
}

#[test]
fn chain_length_counts_add_up_to_the_objects() {
    let base: &[u8] = b"abc";
    let delta = copy_all_delta(base.len());
    let pack = build_pack(&[Piece::Object(3, base), Piece::Ofs(0, &delta), Piece::Ofs(1, &delta), Piece::Object(3, b"x")]);
    let out = index_pack(&pack).unwrap();
    assert_eq!(out.statistics.objects_per_chain_length, vec![2, 1, 1]);
    assert_eq!(out.statistics.objects_per_chain_length.iter().sum::<u32>(), 4);
}

#[test]
fn equal_ids_are_ordered_by_offset() {
    let base: &[u8] = b"same";
    let delta = copy_all_delta(base.len());
    let pack = build_pack(&[Piece::Object(3, base), Piece::Ofs(0, &delta)]);
    let out = index_pack(&pack).unwrap();
    assert_eq!(out.records[0].id, out.records[1].id);
    assert!(out.records[0].pack_offset < out.records[1].pack_offset);
}
