use git_pack::bundle::index_pack;
use git_pack::bundle_state::{bundle_file_names, write_step, WriteAction, WriteEvent, WriteState};
use git_pack::delta_tree::{build_tree, TreeError};
use git_pack::pack_data::{decode_pack, EntryHeader, ObjectKind};
use git_pack::thin::{complete_thin_pack, ref_delta_bases, resolve_thin_pack, ObjectData, ThinError};
use git_pack::traverse::{compute_object_id, find_ref_bases};

fn zlib(data: &[u8]) -> Vec<u8> {
    let mut w = git_features::zlib::stream::deflate::Write::new(Vec::new());
    std::io::Write::write_all(&mut w, data).unwrap();
    std::io::Write::flush(&mut w).unwrap();
    w.into_inner()
}

fn sha1(data: &[u8]) -> [u8; 20] {
    let mut h = git_features::hash::Sha1::default();
    h.update(data);
    h.digest()
}

fn hex(b: &[u8]) -> String {
    b.iter().map(|x| format!("{:02x}", x)).collect()
}

const BASE: &[u8] = b"base content\n";

/// A delta that copies all of `BASE` and appends "more\n".
fn extending_delta() -> Vec<u8> {
    vec![13, 18, 0x90, 13, 5, b'm', b'o', b'r', b'e', b'\n']
}

/// A pack with one delta by id against `BASE`, which it does not hold.
fn thin_pack() -> Vec<u8> {
    let delta = extending_delta();
    let mut pack = b"PACK".to_vec();
    pack.extend(2u32.to_be_bytes());
    pack.extend(1u32.to_be_bytes());
    pack.push((7 << 4) | delta.len() as u8);
    pack.extend(compute_object_id(ObjectKind::Blob, BASE));
    pack.extend(zlib(&delta));
    let trailer = sha1(&pack);
    pack.extend(trailer);
    pack
}

#[test]
fn thin_pack_names_its_base() {
    let pack = thin_pack();
    let decoded = decode_pack(&pack).unwrap();
    let in_pack = find_ref_bases(&pack, &decoded.entries);
    assert_eq!(in_pack, vec![None]);
    let ids = ref_delta_bases(&decoded.entries, &in_pack);
    assert_eq!(ids, vec![compute_object_id(ObjectKind::Blob, BASE)]);
}

#[test]
fn thin_pack_is_completed_with_its_base_first() {
    let pack = thin_pack();
    let found = vec![Some(ObjectData { kind: ObjectKind::Blob, data: BASE.to_vec() })];
    let fat = resolve_thin_pack(&pack, &vec![None], &found).unwrap();
    let decoded = decode_pack(&fat).unwrap();
    assert_eq!(u32::from_be_bytes(fat[8..12].try_into().unwrap()), 2);
    assert_eq!(decoded.entries.len(), 2);
    assert_eq!(decoded.entries[0].header, EntryHeader::Object(ObjectKind::Blob));
    assert_eq!(decoded.entries[0].pack_offset, 12);
    let delta_at = decoded.entries[1].pack_offset;
    assert_eq!(decoded.entries[1].header, EntryHeader::OfsDelta { base_distance: delta_at - 12 });
    assert!(decoded.entries.iter().all(|e| !matches!(e.header, EntryHeader::RefDelta { .. })));
    let out = index_pack(&fat).unwrap();
    assert_ne!(out.data_hash.to_vec(), pack[pack.len() - 20..].to_vec());
    let base_id = compute_object_id(ObjectKind::Blob, BASE);
    let derived_id = compute_object_id(ObjectKind::Blob, b"base content\nmore\n");
    assert!(out.records.iter().any(|r| r.id == base_id && r.pack_offset == 12));
    assert!(out.records.iter().any(|r| r.id == derived_id && r.pack_offset == delta_at));
}

#[test]
fn thin_pack_without_base_is_unresolved() {
    let pack = thin_pack();
    let id = compute_object_id(ObjectKind::Blob, BASE);
    assert_eq!(resolve_thin_pack(&pack, &vec![None], &vec![None]), Err(ThinError::UnresolvedRefDelta { offset: 12, id }));
    assert_eq!(resolve_thin_pack(&pack, &vec![None], &Vec::new()), Err(ThinError::WrongLookupCount));
    let decoded = decode_pack(&pack).unwrap();
    assert_eq!(complete_thin_pack(&pack, &decoded, &vec![None], &vec![None]), Err(ThinError::UnresolvedRefDelta { offset: 12, id }));
}

#[test]
fn thin_pack_of_whole_objects_is_unchanged_but_its_hash() {
    let mut pack = b"PACK".to_vec();
    pack.extend(2u32.to_be_bytes());
    pack.extend(1u32.to_be_bytes());
    pack.push((3 << 4) | 6);
    pack.extend(zlib(b"hello\n"));
    let trailer = sha1(&pack);
    pack.extend(trailer);
    let same = resolve_thin_pack(&pack, &Vec::new(), &Vec::new()).unwrap();
    assert_eq!(same, pack);
}

fn run(has_directory: bool, events: &[WriteEvent]) -> Vec<WriteAction> {
    let mut state = WriteState::Init;
    let mut actions = Vec::new();
    let mut event = WriteEvent::Succeeded;
    let mut i = 0;
    loop {
        let (next, action) = write_step(state, event, has_directory);
        actions.push(action);
        state = next;
        if matches!(action, WriteAction::Finish | WriteAction::Abort | WriteAction::AbortKeepingPack) {
            return actions;
        }
        event = events.get(i).copied().unwrap_or(WriteEvent::Succeeded);
        i += 1;
    }
}

#[test]
fn dry_run_places_nothing() {
    assert_eq!(
        run(false, &[]),
        vec![WriteAction::CreateTempFiles, WriteAction::ReadInput, WriteAction::BuildIndex, WriteAction::Finish]
    );
}

#[test]
fn writing_places_keep_then_pack_then_index() {
    assert_eq!(
        run(true, &[]),
        vec![
            WriteAction::CreateTempFiles,
            WriteAction::ReadInput,
            WriteAction::BuildIndex,
            WriteAction::WriteKeep,
            WriteAction::PersistPack,
            WriteAction::PersistIndex,
            WriteAction::Finish,
        ]
    );
}

#[test]
fn interrupt_while_reading_aborts() {
    let actions = run(true, &[WriteEvent::Succeeded, WriteEvent::Interrupted]);
    assert_eq!(actions, vec![WriteAction::CreateTempFiles, WriteAction::ReadInput, WriteAction::Abort]);
    assert_eq!(write_step(WriteState::Failed, WriteEvent::Succeeded, true), (WriteState::Failed, WriteAction::Abort));
}

#[test]
fn failed_index_rename_keeps_the_pack() {
    let actions = run(
        true,
        &[
            WriteEvent::Succeeded,
            WriteEvent::Succeeded,
            WriteEvent::Succeeded,
            WriteEvent::Succeeded,
            WriteEvent::Succeeded,
            WriteEvent::Failed,
        ],
    );
    assert_eq!(actions.last(), Some(&WriteAction::AbortKeepingPack));
}

#[test]
fn bundle_files_are_named_by_the_pack_hash() {
    let mut hash = [0u8; 20];
    hash[0] = 0x02;
    hash[1] = 0x9d;
    hash[19] = 0xfe;
    let (pack, index, keep) = bundle_file_names(&hash);
    let hex_name = hex(&hash);
    assert_eq!(String::from_utf8(pack).unwrap(), format!("pack-{}.pack", hex_name));
    assert_eq!(String::from_utf8(index).unwrap(), format!("pack-{}.idx", hex_name));
    assert_eq!(String::from_utf8(keep).unwrap(), format!("pack-{}.keep", hex_name));
    assert!(hex_name.starts_with("029d"));
}

/// A complete pack: `BASE` as a whole object, then a delta by id against it.
fn pack_with_in_pack_ref_delta() -> Vec<u8> {
    let delta = extending_delta();
    let mut pack = b"PACK".to_vec();
    pack.extend(2u32.to_be_bytes());
    pack.extend(2u32.to_be_bytes());
    pack.push((3 << 4) | BASE.len() as u8);
    pack.extend(zlib(BASE));
    pack.push((7 << 4) | delta.len() as u8);
    pack.extend(compute_object_id(ObjectKind::Blob, BASE));
    pack.extend(zlib(&delta));
    let trailer = sha1(&pack);
    pack.extend(trailer);
    pack
}

#[test]
fn delta_by_id_with_base_in_the_pack_is_indexed() {
    let pack = pack_with_in_pack_ref_delta();
    let decoded = decode_pack(&pack).unwrap();
    assert_eq!(find_ref_bases(&pack, &decoded.entries), vec![Some(12)]);
    let out = index_pack(&pack).unwrap();
    assert_eq!(out.ref_bases, vec![Some(12)]);
    let derived_id = compute_object_id(ObjectKind::Blob, b"base content\nmore\n");
    assert!(out.records.iter().any(|r| r.id == derived_id && r.pack_offset == decoded.entries[1].pack_offset));
    assert_eq!(out.statistics.objects_per_chain_length, vec![1, 1]);
}

#[test]
fn thin_completion_keeps_deltas_whose_base_is_in_the_pack() {
    let pack = pack_with_in_pack_ref_delta();
    let decoded = decode_pack(&pack).unwrap();
    let in_pack = find_ref_bases(&pack, &decoded.entries);
    assert!(ref_delta_bases(&decoded.entries, &in_pack).is_empty());
    let same = resolve_thin_pack(&pack, &in_pack, &Vec::new()).unwrap();
    assert_eq!(same, pack);
}

#[test]
fn delta_by_id_with_base_after_it_is_out_of_order() {
    let pack = pack_with_in_pack_ref_delta();
    let decoded = decode_pack(&pack).unwrap();
    let later = decoded.entries[1].pack_offset;
    assert_eq!(
        build_tree(&decoded.entries, decoded.pack_end, &vec![Some(later)]).err(),
        Some(TreeError::OutOfOrderDelta { offset: later })
    );
    assert_eq!(
        build_tree(&decoded.entries, decoded.pack_end, &vec![None]).err(),
        Some(TreeError::MissingBase { offset: later })
    );
    let tree = build_tree(&decoded.entries, decoded.pack_end, &vec![Some(12)]).unwrap();
    assert_eq!(tree.nodes[1].parent, Some(0));
}
