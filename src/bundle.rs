use vstd::prelude::*;

use crate::count::{CapacityExceeded, CountBytes};
use crate::delta_tree::{build_tree, offsets_ascend, tree_spec, TreeError};
use crate::digest::sha1_of;
use crate::index_file::{
    encode_index, id_less, index_body, index_file, index_size, is_large, large_count, sorted_by_id, EncodeError,
    IndexEntry, LARGE_OFFSET_THRESHOLD, MAX_INDEX_SIZE,
};
use crate::pack_data::{decode_pack, models, pack_spec, DecodeError, EntryModel, PackVersion};
use crate::stats::{digest_statistics, Statistics};
use crate::delta_tree::{tree_wf, Node};
use crate::pack_data::{entry_spec, Entry};
use crate::traverse::ObjectInfo;
use crate::traverse::{find_ref_bases, materialized, object_at, object_id, object_spec, traverse, TraverseError};
use crate::delta_tree::{ref_count, ref_parent_agrees};
use crate::thin::refs_before;

verus! {

/// Why a pack could not be indexed.
#[derive(Debug, Clone, Copy, PartialEq, Eq, Structural)]
pub enum IndexError {
    Decode(DecodeError),
    Tree(TreeError),
    Traverse(TraverseError),
    Encode(EncodeError),
    /// The pack is larger than 4 GiB.
    PackTooLarge,
}

/// A pack and the index made for it.
pub struct IndexedPack {
    pub pack_version: PackVersion,
    /// The pack's bytes, up to and including its trailing hash.
    pub pack: Vec<u8>,
    /// The pack's trailing hash, which names it.
    pub data_hash: [u8; 20],
    pub index: Vec<u8>,
    pub index_hash: [u8; 20],
    /// The index records, sorted by id.
    pub records: Vec<IndexEntry>,
    /// Where the bases of the deltas by id were found, one per such delta in pack order.
    pub ref_bases: Vec<Option<u64>>,
    pub statistics: Statistics,
}

/// The key records are sorted by: the id, then the pack offset.
pub fn sort_key(e: &IndexEntry) -> (r: ([u8; 20], u64))
    ensures
        r.0 == e.id,
        r.1 == e.pack_offset,
{
    (e.id, e.pack_offset)
}

/// `a` comes before `b` by id, and by pack offset among equal ids.
pub open spec fn key_less(a: IndexEntry, b: IndexEntry) -> bool {
    id_less(a.id@, b.id@) || (a.id@ == b.id@ && a.pack_offset < b.pack_offset)
}

/// No record is followed by one with a smaller key.
pub open spec fn sorted_by_key(es: Seq<IndexEntry>) -> bool {
    forall|i: int, j: int| 0 <= i < j < es.len() ==> !key_less(es[j], es[i])
}

/// No two records share a pack offset.
pub open spec fn distinct_offsets(es: Seq<IndexEntry>) -> bool {
    forall|i: int, j: int| 0 <= i < j < es.len() ==> es[i].pack_offset != es[j].pack_offset
}

/// Relies on `slice::sort_by_key` of std: the records afterwards are the same records, and no
/// record is followed by one with a smaller key (tuples and arrays compare lexicographically).
#[verifier::external_body]
fn sort_records_by_id(records: &mut Vec<IndexEntry>)
    ensures
        final(records)@.to_multiset() == old(records)@.to_multiset(),
        sorted_by_key(final(records)@),
{
    records.sort_by_key(|e| sort_key(e))
}

/// The record's offset starts an entry of `pack` whose object has the record's id.
pub open spec fn record_found(pack: Seq<u8>, answers: Seq<Option<u64>>, rec: IndexEntry) -> bool {
    object_at(pack, pack_bases(pack, answers), rec.pack_offset as int) matches Some((k, d)) && rec.id@ == object_id(k, d)
}

/// Where the base of the delta by id at `offset` starts, as the id-to-offset lookup answered:
/// one answer per delta by id of `es`, in pack order.
pub open spec fn answered_base(es: Seq<EntryModel>, answers: Seq<Option<u64>>, offset: int) -> Option<int> {
    if exists|i: int| 0 <= i < es.len() && es[i].pack_offset == offset {
        let i = choose|i: int| 0 <= i < es.len() && es[i].pack_offset == offset;
        let r = refs_before(es, i) as int;
        if r < answers.len() && answers[r] is Some {
            Some(answers[r]->Some_0 as int)
        } else {
            None
        }
    } else {
        None
    }
}

/// The answered base offsets of the deltas by id of a pack.
pub open spec fn pack_bases(pack: Seq<u8>, answers: Seq<Option<u64>>) -> spec_fn(int) -> Option<int> {
    |offset: int| answered_base(pack_spec(pack)->Ok_0.1, answers, offset)
}

/// A delta by id's parent starts where `bases` says its base starts.
pub open spec fn ref_node_base(bases: spec_fn(int) -> Option<int>, nodes: Seq<Node>, k: int) -> bool {
    match nodes[k].parent {
        Some(j) => nodes[k].entry.header is RefDelta ==> bases(nodes[k].entry.pack_offset as int) == Some(
            nodes[j as int].entry.pack_offset as int,
        ),
        None => true,
    }
}

proof fn lemma_ref_counts_agree(es: Seq<EntryModel>, entries: Seq<Entry>, n: int)
    requires
        es == models(entries),
        0 <= n <= entries.len(),
    ensures
        refs_before(es, n) == ref_count(entries, n),
    decreases n,
{
    if n > 0 {
        lemma_ref_counts_agree(es, entries, n - 1);
        assert(es[n - 1] == entries[n - 1]@);
    }
}

/// The parents the tree gave deltas by id sit where the answers put their bases.
proof fn lemma_ref_bases_agree(pack: Seq<u8>, answers: Seq<Option<u64>>, nodes: Seq<Node>, entries: Seq<Entry>)
    requires
        pack_spec(pack) matches Ok((_, es, _, _)) && es == models(entries),
        nodes.len() == entries.len(),
        forall|k: int| 0 <= k < entries.len() ==> #[trigger] nodes[k].entry == entries[k],
        forall|k: int| 0 <= k < entries.len() ==> #[trigger] ref_parent_agrees(entries, answers, nodes, k),
    ensures
        forall|k: int| 0 <= k < nodes.len() ==> #[trigger] ref_node_base(pack_bases(pack, answers), nodes, k),
{
    let es = models(entries);
    crate::pack_data::lemma_decoded_offsets_ascend(pack);
    assert forall|k: int| 0 <= k < nodes.len() implies #[trigger] ref_node_base(pack_bases(pack, answers), nodes, k) by {
        assert(ref_parent_agrees(entries, answers, nodes, k));
        match nodes[k].parent {
            Some(j) => {
                if nodes[k].entry.header is RefDelta {
                    let off = nodes[k].entry.pack_offset as int;
                    assert(es[k] == entries[k]@);
                    assert(es[k].pack_offset == off);
                    let c = choose|i: int| 0 <= i < es.len() && es[i].pack_offset == off;
                    assert(c == k) by {
                        if c < k {
                            assert(es[c].pack_offset < es[k].pack_offset);
                        } else if c > k {
                            assert(es[k].pack_offset < es[c].pack_offset);
                        }
                    }
                    lemma_ref_counts_agree(es, entries, k);
                }
            },
            None => {},
        }
    }
}

/// How many entries lie beyond the reach of a 31-bit offset.
pub open spec fn large_entries(es: Seq<EntryModel>) -> nat
    decreases es.len(),
{
    if es.len() == 0 {
        0
    } else {
        large_entries(es.drop_last()) + if es.last().pack_offset > LARGE_OFFSET_THRESHOLD { 1nat } else { 0nat }
    }
}

proof fn lemma_large_count_remove(s: Seq<IndexEntry>, k: int)
    requires
        0 <= k < s.len(),
    ensures
        large_count(s) == large_count(s.remove(k)) + if is_large(s[k]) { 1nat } else { 0nat },
    decreases s.len(),
{
    if k == s.len() - 1 {
        assert(s.remove(k) =~= s.drop_last());
    } else {
        lemma_large_count_remove(s.drop_last(), k);
        assert(s.remove(k).drop_last() =~= s.drop_last().remove(k));
        assert(s.remove(k).last() == s.last());
    }
}

/// Reordering records keeps the number of 64-bit offsets.
proof fn lemma_large_count_perm(a: Seq<IndexEntry>, b: Seq<IndexEntry>)
    requires
        a.to_multiset() == b.to_multiset(),
    ensures
        large_count(a) == large_count(b),
    decreases a.len(),
{
    a.to_multiset_ensures();
    b.to_multiset_ensures();
    if a.len() == 0 {
        assert(b.len() == 0);
    } else {
        let x = a.last();
        let init = a.drop_last();
        init.to_multiset_ensures();
        assert(init.push(x) =~= a);
        assert(a.contains(x));
        assert(a.to_multiset().count(x) > 0);
        assert(b.contains(x));
        let k = choose|k: int| 0 <= k < b.len() && b[k] == x;
        assert(init.to_multiset() =~= a.to_multiset().remove(x));
        lemma_large_count_perm(init, b.remove(k));
        lemma_large_count_remove(b, k);
    }
}

/// Records at the entries' offsets, in the same order, need as many 64-bit offsets as the entries.
proof fn lemma_large_aligned(records: Seq<IndexEntry>, es: Seq<EntryModel>)
    requires
        records.len() == es.len(),
        forall|i: int| 0 <= i < records.len() ==> (#[trigger] records[i]).pack_offset == es[i].pack_offset,
    ensures
        large_count(records) == large_entries(es),
    decreases es.len(),
{
    if es.len() > 0 {
        let r2 = records.drop_last();
        let e2 = es.drop_last();
        assert forall|i: int| 0 <= i < r2.len() implies (#[trigger] r2[i]).pack_offset == e2[i].pack_offset by {
            assert(r2[i] == records[i]);
            assert(e2[i] == es[i]);
        }
        lemma_large_aligned(r2, e2);
        assert(records.last() == records[records.len() - 1]);
    }
}

/// The record has the offset and CRC-32 of one of the entries.
pub open spec fn stands_for_entry(es: Seq<EntryModel>, rec: IndexEntry) -> bool {
    exists|i: int| 0 <= i < es.len() && es[i].pack_offset == rec.pack_offset && es[i].crc32 == rec.crc32
}

/// One of the records has the given offset.
pub open spec fn has_record_at(records: Seq<IndexEntry>, offset: int) -> bool {
    exists|k: int| 0 <= k < records.len() && records[k].pack_offset == offset
}

/// What the tree says of a node's object is what reading the pack at the node's offset says.
#[verifier::rlimit(40)]
proof fn lemma_objects_at_offsets(
    pack: Seq<u8>,
    bases: spec_fn(int) -> Option<int>,
    nodes: Seq<Node>,
    roots: Seq<usize>,
    i: int,
)
    requires
        0 <= i < nodes.len(),
        tree_wf(nodes, roots),
        forall|k: int| 0 <= k < nodes.len() ==> #[trigger] ref_node_base(bases, nodes, k),
        forall|k: int|
            0 <= k < nodes.len() ==> (entry_spec(pack, #[trigger] nodes[k].entry.pack_offset as int) matches Ok((m, _))
                && m == nodes[k].entry@),
    ensures
        object_spec(pack, nodes, i) == object_at(pack, bases, nodes[i].entry.pack_offset as int),
    decreases i,
{
    let e = nodes[i].entry;
    assert(entry_spec(pack, e.pack_offset as int) matches Ok((m, _)) && m == e@);
    assert(ref_node_base(bases, nodes, i));
    match nodes[i].parent {
        None => {},
        Some(j) => {
            lemma_objects_at_offsets(pack, bases, nodes, roots, j as int);
        },
    }
}

/// An object that the tree cannot materialize cannot be read at its offset either.
proof fn lemma_failure_found(
    pack: Seq<u8>,
    answers: Seq<Option<u64>>,
    nodes: Seq<Node>,
    roots: Seq<usize>,
    entries: Seq<Entry>,
    e: TraverseError,
)
    requires
        pack_spec(pack) matches Ok((_, es, _, _)) && es == models(entries),
        nodes.len() == entries.len(),
        forall|k: int| 0 <= k < entries.len() ==> #[trigger] nodes[k].entry == entries[k],
        forall|k: int| 0 <= k < entries.len() ==> #[trigger] ref_parent_agrees(entries, answers, nodes, k),
        tree_wf(nodes, roots),
        match e {
            TraverseError::PackDecode { offset } => exists|i: int|
                0 <= i < nodes.len() && object_spec(pack, nodes, i) is None && nodes[i].entry.pack_offset == offset,
        },
    ensures
        match e {
            TraverseError::PackDecode { offset } => pack_spec(pack) matches Ok((_, es, _, _)) && exists|i: int|
                0 <= i < es.len() && es[i].pack_offset == offset && object_at(pack, pack_bases(pack, answers), es[i].pack_offset)
                    is None,
        },
{
    let es = models(entries);
    crate::pack_data::lemma_decoded_entries_found(pack);
    lemma_ref_bases_agree(pack, answers, nodes, entries);
    assert forall|k: int| 0 <= k < nodes.len() implies (entry_spec(pack, #[trigger] nodes[k].entry.pack_offset as int)
        matches Ok((m, _)) && m == nodes[k].entry@) by {
        assert(es[k] == entries[k]@);
        assert(es[k].pack_offset == nodes[k].entry.pack_offset as int);
    }
    match e {
        TraverseError::PackDecode { offset } => {
            let i = choose|i: int| 0 <= i < nodes.len() && object_spec(pack, nodes, i) is None && nodes[i].entry.pack_offset == offset;
            lemma_objects_at_offsets(pack, pack_bases(pack, answers), nodes, roots, i);
            assert(es[i] == entries[i]@);
        },
    }
}

/// Every record of a traversal is found in the pack at its offset and stands for the entry there.
proof fn lemma_traversal_found(
    pack: Seq<u8>,
    answers: Seq<Option<u64>>,
    nodes: Seq<Node>,
    roots: Seq<usize>,
    entries: Seq<Entry>,
    records: Seq<IndexEntry>,
    objects: Seq<ObjectInfo>,
)
    requires
        pack_spec(pack) matches Ok((_, es, _, _)) && es == models(entries),
        nodes.len() == entries.len(),
        forall|k: int| 0 <= k < entries.len() ==> #[trigger] nodes[k].entry == entries[k],
        forall|k: int| 0 <= k < entries.len() ==> #[trigger] ref_parent_agrees(entries, answers, nodes, k),
        tree_wf(nodes, roots),
        records.len() == nodes.len(),
        objects.len() == nodes.len(),
        forall|i: int| 0 <= i < nodes.len() ==> #[trigger] materialized(pack, nodes, i, records[i], objects[i]),
    ensures
        forall|i: int| 0 <= i < records.len() ==> #[trigger] record_found(pack, answers, records[i]),
        forall|i: int| 0 <= i < records.len() ==> (#[trigger] records[i]).pack_offset == entries[i].pack_offset
            && records[i].crc32 == entries[i].crc32,
{
    let es = models(entries);
    crate::pack_data::lemma_decoded_entries_found(pack);
    lemma_ref_bases_agree(pack, answers, nodes, entries);
    assert forall|k: int| 0 <= k < nodes.len() implies (entry_spec(pack, #[trigger] nodes[k].entry.pack_offset as int)
        matches Ok((m, _)) && m == nodes[k].entry@) by {
        assert(es[k] == entries[k]@);
        assert(es[k].pack_offset == nodes[k].entry.pack_offset as int);
    }
    assert forall|i: int| 0 <= i < records.len() implies #[trigger] record_found(pack, answers, records[i]) by {
        assert(materialized(pack, nodes, i, records[i], objects[i]));
        lemma_objects_at_offsets(pack, pack_bases(pack, answers), nodes, roots, i);
    }
    assert forall|i: int| 0 <= i < records.len() implies (#[trigger] records[i]).pack_offset == entries[i].pack_offset
        && records[i].crc32 == entries[i].crc32 by {
        assert(materialized(pack, nodes, i, records[i], objects[i]));
    }
}

/// What holds of each record holds of each record after sorting, and the other way round.
proof fn lemma_sorted_found(pack: Seq<u8>, answers: Seq<Option<u64>>, es: Seq<EntryModel>, before: Seq<IndexEntry>, after: Seq<IndexEntry>)
    requires
        after.to_multiset() == before.to_multiset(),
        forall|i: int, j: int| 0 <= i < j < es.len() ==> es[i].pack_offset < es[j].pack_offset,
        before.len() == es.len(),
        forall|i: int| 0 <= i < before.len() ==> #[trigger] record_found(pack, answers, before[i]),
        forall|i: int| 0 <= i < before.len() ==> (#[trigger] before[i]).pack_offset == es[i].pack_offset
            && before[i].crc32 == es[i].crc32,
    ensures
        after.len() == es.len(),
        forall|k: int| 0 <= k < after.len() ==> #[trigger] record_found(pack, answers, after[k]),
        forall|k: int| 0 <= k < after.len() ==> #[trigger] stands_for_entry(es, after[k]),
        forall|i: int| 0 <= i < es.len() ==> #[trigger] has_record_at(after, es[i].pack_offset),
        distinct_offsets(after),
{
    broadcast use vstd::multiset::group_multiset_axioms;
    before.to_multiset_ensures();
    after.to_multiset_ensures();
    assert(before.no_duplicates()) by {
        assert forall|i: int, j: int| 0 <= i < before.len() && 0 <= j < before.len() && i != j implies before[i]
            != before[j] by {
            assert(before[i].pack_offset == es[i].pack_offset);
            assert(before[j].pack_offset == es[j].pack_offset);
        }
    }
    before.lemma_multiset_has_no_duplicates();
    assert forall|i: int, j: int| 0 <= i < j < after.len() implies after[i].pack_offset != after[j].pack_offset by {
        if after[i].pack_offset == after[j].pack_offset {
            assert(after.contains(after[i]) && after.contains(after[j]));
            assert(after.to_multiset().count(after[i]) > 0);
            assert(after.to_multiset().count(after[j]) > 0);
            let p = choose|p: int| 0 <= p < before.len() && before[p] == after[i];
            let q = choose|q: int| 0 <= q < before.len() && before[q] == after[j];
            assert(before[p].pack_offset == es[p].pack_offset);
            assert(before[q].pack_offset == es[q].pack_offset);
            if p < q {
                assert(es[p].pack_offset < es[q].pack_offset);
            } else if q < p {
                assert(es[q].pack_offset < es[p].pack_offset);
            }
            assert(p == q);
            let x = after[i];
            assert(after[j] == x);
            let rest = after.remove(i);
            assert(rest[j - 1] == x);
            assert(rest.contains(x));
            rest.to_multiset_ensures();
            assert(rest.to_multiset().count(x) > 0);
            assert(rest.to_multiset() =~= after.to_multiset().remove(x));
            assert(before.contains(x));
            assert(before.to_multiset().count(x) > 0);
            assert(before.to_multiset().count(x) == 1);
            assert(after.to_multiset().remove(x).count(x) == 0);
        }
    }
    assert forall|k: int| 0 <= k < after.len() implies #[trigger] record_found(pack, answers, after[k]) by {
        assert(after.contains(after[k]));
        assert(after.to_multiset().count(after[k]) > 0);
        assert(before.contains(after[k]));
        let i = choose|i: int| 0 <= i < before.len() && before[i] == after[k];
        assert(record_found(pack, answers, before[i]));
    }
    assert forall|k: int| 0 <= k < after.len() implies #[trigger] stands_for_entry(es, after[k]) by {
        assert(after.contains(after[k]));
        assert(after.to_multiset().count(after[k]) > 0);
        assert(before.contains(after[k]));
        let i = choose|i: int| 0 <= i < before.len() && before[i] == after[k];
        assert(before[i].pack_offset == es[i].pack_offset);
        assert(es[i].pack_offset == after[k].pack_offset && es[i].crc32 == after[k].crc32);
    }
    assert forall|i: int| 0 <= i < es.len() implies #[trigger] has_record_at(after, es[i].pack_offset) by {
        assert(before[i].pack_offset == es[i].pack_offset);
        assert(before.contains(before[i]));
        assert(before.to_multiset().count(before[i]) > 0);
        assert(after.contains(before[i]));
        let k = choose|k: int| 0 <= k < after.len() && after[k] == before[i];
        assert(after[k].pack_offset == es[i].pack_offset);
    }
}

/// Decode a pack held in memory, resolve its deltas, compute the id of every object, and encode
/// the index of all objects. A delta by id takes as its base the first earlier object of the pack
/// with that id (`find_ref_bases`); the pack must hold every base, so thin packs are completed first.
#[verifier::rlimit(50)]
pub fn index_pack(pack: &[u8]) -> (r: Result<IndexedPack, IndexError>)
    ensures
        pack_spec(pack@) matches Err(e) ==> r == Err::<IndexedPack, IndexError>(IndexError::Decode(e)),
        r matches Err(IndexError::Decode(e)) ==> pack_spec(pack@) == Err::<(PackVersion, Seq<EntryModel>, int, Seq<u8>), DecodeError>(e),
        r matches Err(IndexError::Tree(e)) ==> (pack_spec(pack@) matches Ok((_, es, _, _)) && exists|entries: Seq<Entry>|
            models(entries) == es && exists|answers: Seq<Option<u64>>| #[trigger] tree_spec(entries, answers, entries.len())
                == Err::<Seq<(Option<int>, nat)>, TreeError>(e)),
        r matches Err(IndexError::Encode(e)) ==> (pack_spec(pack@) matches Ok((_, es, _, _)) && e
            == EncodeError::CapacityExceeded && index_size(es.len() as int, large_entries(es) as int) > MAX_INDEX_SIZE),
        r matches Err(IndexError::PackTooLarge) ==> (pack_spec(pack@) matches Ok((_, _, end, _)) && end + 20 > u32::MAX),
        r matches Err(IndexError::Traverse(TraverseError::PackDecode { offset })) ==> (pack_spec(pack@) matches Ok((_, es, _, _))
            && exists|answers: Seq<Option<u64>>, i: int| 0 <= i < es.len() && es[i].pack_offset == offset
                && #[trigger] object_at(pack@, pack_bases(pack@, answers), es[i].pack_offset) is None),
        r matches Ok(o) ==> (pack_spec(pack@) matches Ok((v, es, end, t)) && o.pack_version == v && o.data_hash@ == t
            && o.pack@ == pack@.subrange(0, end + 20) && o.pack@.len() <= u32::MAX && o.records@.len() <= u32::MAX
            && records_of_pack(pack@, o.ref_bases@, o.records@)
            && o.index@ == index_file(o.records@, t) && o.index_hash@ == sha1_of(index_body(o.records@, t))),
{
    let decoded = match decode_pack(pack) {
        Err(e) => return Err(IndexError::Decode(e)),
        Ok(d) => d,
    };
    proof {
        crate::pack_data::lemma_decoded_offsets_ascend(pack@);
        assert(offsets_ascend(decoded.entries@)) by {
            assert forall|i: int, j: int| 0 <= i < j < decoded.entries@.len() implies decoded.entries@[i].pack_offset
                < decoded.entries@[j].pack_offset by {
                assert(models(decoded.entries@)[i] == decoded.entries@[i]@);
                assert(models(decoded.entries@)[j] == decoded.entries@[j]@);
            }
        }
    }
    let ref_bases = find_ref_bases(pack, &decoded.entries);
    let tree = match build_tree(&decoded.entries, decoded.pack_end, &ref_bases) {
        Err(e) => {
            assert(tree_spec(decoded.entries@, ref_bases@, decoded.entries@.len()) == Err::<Seq<(Option<int>, nat)>, TreeError>(e));
            return Err(IndexError::Tree(e));
        },
        Ok(t) => t,
    };
    let traversal = match traverse(pack, &tree) {
        Err(e) => {
            proof {
                lemma_failure_found(pack@, ref_bases@, tree.nodes@, tree.roots@, decoded.entries@, e);
            }
            return Err(IndexError::Traverse(e));
        },
        Ok(t) => t,
    };
    let mut records = traversal.records;
    let ghost before = records@;
    proof {
        lemma_traversal_found(pack@, ref_bases@, tree.nodes@, tree.roots@, decoded.entries@, before, traversal.objects@);
    }
    sort_records_by_id(&mut records);
    proof {
        assert forall|i: int, j: int| 0 <= i < j < records@.len() implies !id_less(records@[j].id@, records@[i].id@) by {
            assert(!key_less(records@[j], records@[i]));
        }
        crate::pack_data::lemma_decoded_offsets_ascend(pack@);
        lemma_sorted_found(pack@, ref_bases@, models(decoded.entries@), before, records@);
    }
    proof {
        let es = models(decoded.entries@);
        assert forall|i: int| 0 <= i < before.len() implies (#[trigger] before[i]).pack_offset == es[i].pack_offset by {
            assert(es[i] == decoded.entries@[i]@);
        }
        lemma_large_count_perm(before, records@);
        lemma_large_aligned(before, es);
        crate::pack_data::lemma_decoded_count(pack@);
    }
    let (index, index_hash) = match encode_index(&records, &decoded.trailer) {
        Err(e) => return Err(IndexError::Encode(e)),
        Ok(x) => x,
    };
    let len = pack.len();
    assert(decoded.pack_end + 20 <= pack@.len());
    let end = decoded.pack_end as usize;
    let mut sink = CountBytes::new(Vec::new());
    match sink.write(vstd::slice::slice_subrange(pack, 0, end + 20)) {
        Err(CapacityExceeded) => return Err(IndexError::PackTooLarge),
        Ok(_) => {},
    }
    let statistics = digest_statistics(&traversal.objects);
    assert(sink.inner@ =~= pack@.subrange(0, end + 20));
    assert(records@.len() == models(decoded.entries@).len());
    assert(sorted_by_id(records@));
    Ok(IndexedPack {
        pack_version: decoded.version,
        pack: sink.into_inner(),
        data_hash: decoded.trailer,
        index,
        index_hash,
        records,
        ref_bases,
        statistics,
    })
}

/// What every outcome of indexing `pack` states of its records.
pub open spec fn records_of_pack(pack: Seq<u8>, answers: Seq<Option<u64>>, records: Seq<IndexEntry>) -> bool {
    &&& pack_spec(pack) is Ok
    &&& records.len() == pack_spec(pack)->Ok_0.1.len()
    &&& sorted_by_id(records)
    &&& sorted_by_key(records)
    &&& distinct_offsets(records)
    &&& forall|k: int| 0 <= k < records.len() ==> #[trigger] record_found(pack, answers, records[k])
    &&& forall|k: int| 0 <= k < records.len() ==> #[trigger] stands_for_entry(pack_spec(pack)->Ok_0.1, records[k])
    &&& forall|i: int|
        0 <= i < pack_spec(pack)->Ok_0.1.len() ==> #[trigger] has_record_at(records, pack_spec(pack)->Ok_0.1[i].pack_offset)
}

proof fn lemma_id_less_asymmetric(a: Seq<u8>, b: Seq<u8>)
    requires
        id_less(a, b),
    ensures
        !id_less(b, a),
{
    let k1 = choose|w: int| 0 <= w < a.len() && w < b.len() && a.subrange(0, w) == b.subrange(0, w) && a[w] < b[w];
    if id_less(b, a) {
        let k2 = choose|w: int| 0 <= w < b.len() && w < a.len() && b.subrange(0, w) == a.subrange(0, w) && b[w] < a[w];
        if k1 < k2 {
            assert(b.subrange(0, k2)[k1] == a.subrange(0, k2)[k1]);
        } else if k2 < k1 {
            assert(a.subrange(0, k1)[k2] == b.subrange(0, k1)[k2]);
        }
    }
}

proof fn lemma_key_less_asymmetric(a: IndexEntry, b: IndexEntry)
    requires
        key_less(a, b),
    ensures
        !key_less(b, a),
{
    if id_less(a.id@, b.id@) {
        lemma_id_less_asymmetric(a.id@, b.id@);
        if b.id@ == a.id@ {
            lemma_id_less_asymmetric(a.id@, a.id@);
        }
    } else if id_less(b.id@, a.id@) {
        lemma_id_less_asymmetric(b.id@, b.id@);
    }
}

proof fn lemma_strict(es: Seq<IndexEntry>)
    requires
        sorted_by_key(es),
        distinct_offsets(es),
    ensures
        forall|i: int, j: int| 0 <= i < j < es.len() ==> key_less(es[i], es[j]),
{
    assert forall|i: int, j: int| 0 <= i < j < es.len() implies key_less(es[i], es[j]) by {
        assert(!key_less(es[j], es[i]));
        if es[i].id@ != es[j].id@ {
            crate::index_file::lemma_id_less_total(es[i].id@, es[j].id@);
        }
    }
}

/// Two sequences strictly ordered by key that hold the same records are the same.
proof fn lemma_strictly_sorted_unique(a: Seq<IndexEntry>, b: Seq<IndexEntry>)
    requires
        forall|i: int, j: int| 0 <= i < j < a.len() ==> key_less(a[i], a[j]),
        forall|i: int, j: int| 0 <= i < j < b.len() ==> key_less(b[i], b[j]),
        forall|x: IndexEntry| a.contains(x) <==> b.contains(x),
    ensures
        a == b,
    decreases a.len() + b.len(),
{
    if a.len() == 0 {
        if b.len() > 0 {
            assert(b.contains(b[0]));
        }
        assert(a =~= b);
    } else {
        assert(a.contains(a[0]));
        assert(b.len() > 0);
        assert(b.contains(b[0]));
        let m = choose|m: int| 0 <= m < b.len() && b[m] == a[0];
        let p = choose|p: int| 0 <= p < a.len() && a[p] == b[0];
        if m > 0 {
            assert(key_less(b[0], b[m]));
            if p > 0 {
                assert(key_less(a[0], a[p]));
                lemma_key_less_asymmetric(a[0], b[0]);
            } else {
                lemma_key_less_asymmetric(b[0], b[0]);
            }
        }
        assert(a[0] == b[0]);
        let ta = a.drop_first();
        let tb = b.drop_first();
        assert forall|x: IndexEntry| ta.contains(x) <==> tb.contains(x) by {
            if ta.contains(x) {
                let i = choose|i: int| 0 <= i < ta.len() && ta[i] == x;
                assert(a[i + 1] == x);
                assert(key_less(a[0], x));
                assert(b.contains(x));
                let j = choose|j: int| 0 <= j < b.len() && b[j] == x;
                if j == 0 {
                    lemma_key_less_asymmetric(x, x);
                }
                assert(tb[j - 1] == x);
            }
            if tb.contains(x) {
                let i = choose|i: int| 0 <= i < tb.len() && tb[i] == x;
                assert(b[i + 1] == x);
                assert(key_less(b[0], x));
                assert(a.contains(x));
                let j = choose|j: int| 0 <= j < a.len() && a[j] == x;
                if j == 0 {
                    lemma_key_less_asymmetric(x, x);
                }
                assert(ta[j - 1] == x);
            }
        }
        lemma_strictly_sorted_unique(ta, tb);
        assert forall|i: int| 0 <= i < a.len() implies a[i] == b[i] by {
            if i > 0 {
                assert(a[i] == ta[i - 1]);
                assert(b[i] == tb[i - 1]);
            }
        }
        assert(a =~= b);
    }
}

proof fn lemma_records_contained(pack: Seq<u8>, answers: Seq<Option<u64>>, a: Seq<IndexEntry>, b: Seq<IndexEntry>)
    requires
        records_of_pack(pack, answers, a),
        records_of_pack(pack, answers, b),
    ensures
        forall|x: IndexEntry| a.contains(x) ==> b.contains(x),
{
    let es = pack_spec(pack)->Ok_0.1;
    crate::pack_data::lemma_decoded_offsets_ascend(pack);
    assert forall|x: IndexEntry| a.contains(x) implies b.contains(x) by {
        let k = choose|k: int| 0 <= k < a.len() && a[k] == x;
        assert(record_found(pack, answers, a[k]));
        assert(stands_for_entry(es, a[k]));
        let i = choose|i: int| 0 <= i < es.len() && es[i].pack_offset == x.pack_offset && es[i].crc32 == x.crc32;
        assert(has_record_at(b, es[i].pack_offset));
        let m = choose|m: int| 0 <= m < b.len() && b[m].pack_offset == es[i].pack_offset;
        assert(record_found(pack, answers, b[m]));
        assert(stands_for_entry(es, b[m]));
        let i2 = choose|i2: int| 0 <= i2 < es.len() && es[i2].pack_offset == b[m].pack_offset && es[i2].crc32 == b[m].crc32;
        if i2 < i {
            assert(es[i2].pack_offset < es[i].pack_offset);
        } else if i < i2 {
            assert(es[i].pack_offset < es[i2].pack_offset);
        }
        assert(b[m].id =~= x.id);
        assert(b[m] == x);
    }
}

/// The index of a pack depends on the pack alone: any two outcomes of indexing the same pack with
/// the same answers for its deltas by id, whatever order the objects were materialized in, have
/// the same records in the same order, hence byte-identical indices. Indexing a pack that indexing
/// wrote (which ends with its trailing hash) thus gives the same pack hash and the same index.
pub proof fn index_is_determined_by_pack(pack: Seq<u8>, answers: Seq<Option<u64>>, a: Seq<IndexEntry>, b: Seq<IndexEntry>)
    requires
        records_of_pack(pack, answers, a),
        records_of_pack(pack, answers, b),
    ensures
        a == b,
        forall|h: Seq<u8>| index_file(a, h) == index_file(b, h),
{
    lemma_records_contained(pack, answers, a, b);
    lemma_records_contained(pack, answers, b, a);
    lemma_strict(a);
    lemma_strict(b);
    lemma_strictly_sorted_unique(a, b);
}

/// Indexing keeps a pack that ends with its trailing hash as it is, so indexing the result again
/// reads the very same bytes.
pub proof fn rewritten_pack_is_the_input(pack: Seq<u8>)
    requires
        pack_spec(pack) matches Ok((_, _, end, _)) && end + 20 == pack.len(),
    ensures
        pack_spec(pack) matches Ok((_, _, end, _)) && pack.subrange(0, end + 20) == pack,
{
    let end = pack_spec(pack)->Ok_0.2;
    assert(pack.subrange(0, end + 20) =~= pack);
}

} // verus!
