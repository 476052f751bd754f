use vstd::prelude::*;

use crate::delta::{apply_delta, apply_spec};
use crate::delta_tree::{tree_wf, Node, Tree};
use crate::digest::{inflate_once, inflate_once_of, sha1, sha1_of};
use crate::index_file::IndexEntry;
use crate::pack_data::{entry_spec, Entry, EntryHeader, EntryModel, HeaderModel, ObjectKind};

verus! {

/// Why an object of the pack could not be materialized.
#[derive(Debug, Clone, Copy, PartialEq, Eq, Structural)]
pub enum TraverseError {
    /// The entry at `offset` does not inflate to its announced size, or its delta does not apply.
    PackDecode { offset: u64 },
}

/// How much checking indexing does.
#[derive(Debug, Clone, Copy, PartialEq, Eq, Structural)]
pub enum SafetyCheck {
    /// Check everything.
    All,
    /// Do not recompute the hash of the pack file.
    SkipFileChecksumVerification,
    /// Check neither the pack's hash nor the objects' ids, and go on past objects that do not decode.
    SkipFileAndObjectChecksumVerification,
}

/// Whether an object that does not decode ends the whole operation under `c`.
pub open spec fn decode_errors_fatal(c: SafetyCheck) -> bool {
    c != SafetyCheck::SkipFileAndObjectChecksumVerification
}

impl SafetyCheck {
    /// Whether an object that does not decode ends the whole operation.
    pub fn fatal_decode_error(&self) -> (r: bool)
        ensures
            r == decode_errors_fatal(*self),
    {
        match self {
            SafetyCheck::SkipFileAndObjectChecksumVerification => false,
            _ => true,
        }
    }
}

/// What traversal learned of one object.
#[derive(Debug, Clone, Copy, PartialEq, Eq, Structural)]
pub struct ObjectInfo {
    pub kind: ObjectKind,
    /// Deltas between this object and its root.
    pub level: u16,
    /// The inflated size of the entry: the object itself for a root, the delta for a delta.
    pub decompressed_size: u64,
    /// The size of the entry's zlib stream.
    pub compressed_size: u64,
    /// The size of the object.
    pub object_size: u64,
}

/// Every object of a pack, in pack order.
pub struct Traversal {
    pub records: Vec<IndexEntry>,
    pub objects: Vec<ObjectInfo>,
}

/// "commit" in ASCII.
pub const COMMIT: [u8; 6] = [99, 111, 109, 109, 105, 116];

/// "tree" in ASCII.
pub const TREE: [u8; 4] = [116, 114, 101, 101];

/// "blob" in ASCII.
pub const BLOB: [u8; 4] = [98, 108, 111, 98];

/// "tag" in ASCII.
pub const TAG: [u8; 3] = [116, 97, 103];

/// The name of a kind, as it opens the hashed form of an object.
pub open spec fn kind_name(k: ObjectKind) -> Seq<u8> {
    match k {
        ObjectKind::Commit => COMMIT@,
        ObjectKind::Tree => TREE@,
        ObjectKind::Blob => BLOB@,
        ObjectKind::Tag => TAG@,
    }
}

/// The decimal digits of `n`.
pub open spec fn decimal(n: nat) -> Seq<u8>
    decreases n,
{
    if n < 10 {
        seq![(48 + n) as u8]
    } else {
        decimal(n / 10).push((48 + n % 10) as u8)
    }
}

/// What is hashed before an object's bytes: its kind, a space, its size in decimal, a zero byte.
pub open spec fn object_header(k: ObjectKind, size: nat) -> Seq<u8> {
    kind_name(k) + seq![32u8] + decimal(size) + seq![0u8]
}

/// The id of an object.
pub open spec fn object_id(k: ObjectKind, data: Seq<u8>) -> Seq<u8> {
    sha1_of(object_header(k, data.len()) + data)
}

/// The inflated data of an entry, read from its place in the pack: the zlib stream after its
/// header must end within the pack and yield exactly the announced size.
pub open spec fn model_data(pack: Seq<u8>, m: EntryModel) -> Option<Seq<u8>> {
    let start = m.pack_offset + m.header_size;
    if start < 0 || start > pack.len() || m.decompressed_size + 1 > usize::MAX {
        None
    } else {
        match inflate_once_of(pack.subrange(start, pack.len() as int), (m.decompressed_size + 1) as nat) {
            Some((true, _, used_out, buf)) if used_out == m.decompressed_size => Some(
                buf.subrange(0, m.decompressed_size as int),
            ),
            _ => None,
        }
    }
}

/// The inflated data of an entry.
pub open spec fn entry_data(pack: Seq<u8>, e: Entry) -> Option<Seq<u8>> {
    model_data(pack, e@)
}

/// The kind and bytes of the object whose entry starts at `offset` of the pack: a whole object is
/// its inflated data; an offset delta is applied to the object at the offset its distance points to;
/// a delta by id is applied to the object at the offset `bases` gives for it, which must come
/// before it and have the id the delta names.
pub open spec fn object_at(pack: Seq<u8>, bases: spec_fn(int) -> Option<int>, offset: int) -> Option<(ObjectKind, Seq<u8>)>
    decreases offset,
{
    if offset < 0 {
        None
    } else {
        match entry_spec(pack, offset) {
            Err(_) => None,
            Ok((m, _)) => match m.header {
                HeaderModel::Object(k) => match model_data(pack, m) {
                    Some(d) => Some((k, d)),
                    None => None,
                },
                HeaderModel::Ofs(d) => if d == 0 || d > offset {
                    None
                } else {
                    match object_at(pack, bases, offset - d) {
                        None => None,
                        Some((k, base)) => match model_data(pack, m) {
                            None => None,
                            Some(delta) => match apply_spec(base, delta) {
                                Some(o) => Some((k, o)),
                                None => None,
                            },
                        },
                    }
                },
                HeaderModel::Ref(id) => match bases(offset) {
                    Some(o) if 0 <= o < offset => match object_at(pack, bases, o) {
                        Some((k, base)) if object_id(k, base) == id => match model_data(pack, m) {
                            None => None,
                            Some(delta) => match apply_spec(base, delta) {
                                Some(o) => Some((k, o)),
                                None => None,
                            },
                        },
                        _ => None,
                    },
                    _ => None,
                },
            },
        }
    }
}

/// The kind and bytes of the object of node `i`: a root's inflated data, or its delta applied to
/// the object of its parent.
pub open spec fn object_spec(pack: Seq<u8>, nodes: Seq<Node>, i: int) -> Option<(ObjectKind, Seq<u8>)>
    decreases i,
{
    if i < 0 || i >= nodes.len() {
        None
    } else {
        match nodes[i].parent {
            None => match nodes[i].entry.header {
                EntryHeader::Object(k) => match entry_data(pack, nodes[i].entry) {
                    Some(d) => Some((k, d)),
                    None => None,
                },
                _ => None,
            },
            Some(j) => if j >= i {
                None
            } else {
                match object_spec(pack, nodes, j as int) {
                    None => None,
                    Some((k, base)) => if !base_matches(nodes[i].entry.header, k, base) {
                        None
                    } else {
                        match entry_data(pack, nodes[i].entry) {
                        None => None,
                        Some(delta) => match apply_spec(base, delta) {
                            Some(o) => Some((k, o)),
                            None => None,
                        },
                    }
                    },
                }
            },
        }
    }
}

/// A delta by id must be applied to the object with that id; an offset delta to whatever lies
/// at its base's offset.
pub open spec fn base_matches(h: EntryHeader, k: ObjectKind, base: Seq<u8>) -> bool {
    match h {
        EntryHeader::RefDelta { base_id } => object_id(k, base) == base_id@,
        _ => true,
    }
}

/// Append the decimal digits of `n`.
fn push_decimal(out: &mut Vec<u8>, n: u64)
    ensures
        final(out)@ == old(out)@ + decimal(n as nat),
    decreases n,
{
    if n >= 10 {
        push_decimal(out, n / 10);
    }
    out.push((48 + n % 10) as u8);
    assert(final(out)@ =~= old(out)@ + decimal(n as nat));
}

/// The id of an object: the hash of its header and its bytes.
pub fn compute_object_id(kind: ObjectKind, data: &[u8]) -> (r: [u8; 20])
    ensures
        r@ == object_id(kind, data@),
{
    let mut buf: Vec<u8> = Vec::new();
    match kind {
        ObjectKind::Commit => crate::bytes::push_all(&mut buf, &COMMIT),
        ObjectKind::Tree => crate::bytes::push_all(&mut buf, &TREE),
        ObjectKind::Blob => crate::bytes::push_all(&mut buf, &BLOB),
        ObjectKind::Tag => crate::bytes::push_all(&mut buf, &TAG),
    }
    assert(buf@ =~= kind_name(kind));
    buf.push(32u8);
    push_decimal(&mut buf, data.len() as u64);
    buf.push(0u8);
    assert(buf@ =~= object_header(kind, data@.len()));
    crate::bytes::push_all(&mut buf, data);
    sha1(buf.as_slice())
}

/// Inflate the data of an entry from its place in the pack.
pub fn inflate_entry(pack: &[u8], e: &Entry) -> (r: Option<Vec<u8>>)
    ensures
        match r {
            Some(d) => entry_data(pack@, *e) == Some(d@),
            None => entry_data(pack@, *e) is None,
        },
{
    let len = pack.len() as u64;
    if e.pack_offset > len || e.header_size > len - e.pack_offset {
        return None;
    }
    let start = e.pack_offset + e.header_size;
    if e.decompressed_size >= usize::MAX as u64 {
        return None;
    }
    let input = vstd::slice::slice_subrange(pack, start as usize, pack.len());
    match inflate_once(input, (e.decompressed_size + 1) as usize) {
        Some((true, _, used_out, buf)) if used_out as u64 == e.decompressed_size => {
            let mut buf = buf;
            buf.truncate(used_out);
            assert(buf@ =~= inflate_once_of(input@, (e.decompressed_size + 1) as nat)->Some_0.3.subrange(0, e.decompressed_size as int));
            Some(buf)
        },
        _ => None,
    }
}

proof fn lemma_first_failure(pack: Seq<u8>, nodes: Seq<Node>, i: int, offset: u64)
    requires
        0 <= i < nodes.len(),
        nodes[i].entry.pack_offset == offset,
        object_spec(pack, nodes, i) is None,
        forall|k: int| 0 <= k < i ==> #[trigger] object_spec(pack, nodes, k) is Some,
    ensures
        exists|x: int|
            0 <= x < nodes.len() && object_spec(pack, nodes, x) is None && nodes[x].entry.pack_offset
                == offset && forall|k: int| 0 <= k < x ==> object_spec(pack, nodes, k) is Some,
{
}

/// What traversal records of node `k` agrees with its object.
pub open spec fn materialized(pack: Seq<u8>, nodes: Seq<Node>, k: int, rec: IndexEntry, info: ObjectInfo) -> bool {
    object_spec(pack, nodes, k) matches Some((kind, d)) && rec.id@ == object_id(kind, d) && rec.pack_offset
        == nodes[k].entry.pack_offset && rec.crc32 == nodes[k].entry.crc32 && info.kind == kind && info.object_size
        == d.len() && info.level == nodes[k].level && info.decompressed_size == nodes[k].entry.decompressed_size
        && info.compressed_size == nodes[k].entry.compressed_size
}

/// The object of node `i`, given the objects of all nodes before it.
fn materialize(
    pack: &[u8],
    nodes: &Vec<Node>,
    i: usize,
    last: &Vec<usize>,
    datas: &Vec<Vec<u8>>,
    objects: &Vec<ObjectInfo>,
) -> (r: Option<(ObjectKind, Vec<u8>)>)
    requires
        i < nodes@.len(),
        i <= datas@.len(),
        i <= objects@.len(),
        last@.len() == nodes@.len(),
        forall|k: int|
            0 <= k < nodes@.len() ==> match #[trigger] nodes@[k].parent {
                Some(j) => j < k && last@[j as int] >= k,
                None => nodes@[k].entry.header is Object,
            },
        forall|k: int|
            0 <= k < i ==> (#[trigger] object_spec(pack@, nodes@, k) matches Some((kind, d)) && (last@[k] >= i
                ==> datas@[k]@ == d) && objects@[k].kind == kind),
    ensures
        match r {
            Some((kind, d)) => object_spec(pack@, nodes@, i as int) == Some((kind, d@)),
            None => object_spec(pack@, nodes@, i as int) is None,
        },
{
    let node = nodes[i];
    let raw = match inflate_entry(pack, &node.entry) {
        None => return None,
        Some(d) => d,
    };
    match node.parent {
        None => match node.entry.header {
            EntryHeader::Object(k) => Some((k, raw)),
            _ => None,
        },
        Some(j) => {
            assert(object_spec(pack@, nodes@, j as int) is Some);
            let kind = objects[j].kind;
            if let EntryHeader::RefDelta { base_id } = node.entry.header {
                let id = compute_object_id(kind, datas[j].as_slice());
                if !crate::bytes::bytes_equal(&id, &base_id) {
                    return None;
                }
            }
            match apply_delta(datas[j].as_slice(), raw.as_slice()) {
                None => None,
                Some(o) => Some((kind, o)),
            }
        },
    }
}

/// For each node, the last node in pack order that builds on it: itself if none does.
fn last_uses(nodes: &Vec<Node>) -> (r: Vec<usize>)
    requires
        forall|k: int| 0 <= k < nodes@.len() ==> match #[trigger] nodes@[k].parent {
            Some(j) => j < k,
            None => true,
        },
    ensures
        r@.len() == nodes@.len(),
        forall|k: int| 0 <= k < nodes@.len() ==> match #[trigger] nodes@[k].parent {
            Some(j) => r@[j as int] >= k,
            None => true,
        },
{
    let n = nodes.len();
    let mut r: Vec<usize> = Vec::new();
    let mut i: usize = 0;
    while i < n
        invariant
            i <= n,
            n == nodes@.len(),
            r@.len() == i,
            forall|k: int| 0 <= k < i ==> r@[k] == k,
        decreases n - i,
    {
        r.push(i);
        i += 1;
    }
    i = 0;
    while i < n
        invariant
            i <= n,
            n == nodes@.len(),
            r@.len() == n,
            forall|k: int| 0 <= k < nodes@.len() ==> match #[trigger] nodes@[k].parent {
                Some(j) => j < k,
                None => true,
            },
            forall|k: int| 0 <= k < i ==> match #[trigger] nodes@[k].parent {
                Some(j) => r@[j as int] >= k,
                None => true,
            },
        decreases n - i,
    {
        if let Some(j) = nodes[i].parent {
            let ghost before = r@;
            r.set(j, i);
            assert forall|k: int| 0 <= k < i implies match #[trigger] nodes@[k].parent {
                Some(p) => r@[p as int] >= k,
                None => true,
            } by {
                match nodes@[k].parent {
                    Some(p) => {
                        if p != j {
                            assert(r@[p as int] == before[p as int]);
                        }
                    },
                    None => {},
                }
            }
        }
        i += 1;
    }
    r
}

/// Materialize every object of the tree, in pack order: a root is inflated, a delta is inflated
/// and applied to the object of its base. An object's bytes are kept only until the last delta
/// that builds on it is done. Each object yields its index record (its id, its pack
/// offset, its entry's CRC-32) and what the statistics need. Fails at the first object that does
/// not decode.
pub fn traverse(pack: &[u8], tree: &Tree) -> (r: Result<Traversal, TraverseError>)
    requires
        tree_wf(tree.nodes@, tree.roots@),
    ensures
        match r {
            Ok(t) => t.records@.len() == tree.nodes@.len() && t.objects@.len() == tree.nodes@.len() && forall|i: int|
                0 <= i < tree.nodes@.len() ==> #[trigger] materialized(pack@, tree.nodes@, i, t.records@[i], t.objects@[i]),
            Err(TraverseError::PackDecode { offset }) => exists|i: int|
                0 <= i < tree.nodes@.len() && object_spec(pack@, tree.nodes@, i) is None
                    && tree.nodes@[i].entry.pack_offset == offset && forall|k: int|
                    0 <= k < i ==> object_spec(pack@, tree.nodes@, k) is Some,
        },
{
    let nodes = &tree.nodes;
    let n = nodes.len();
    let mut datas: Vec<Vec<u8>> = Vec::new();
    let mut records: Vec<IndexEntry> = Vec::new();
    let mut objects: Vec<ObjectInfo> = Vec::new();
    let mut i: usize = 0;
    assert forall|k: int| 0 <= k < nodes@.len() implies match #[trigger] nodes@[k].parent {
        Some(j) => j < k,
        None => nodes@[k].entry.header is Object,
    } by {}
    let last = last_uses(nodes);
    assert forall|k: int| 0 <= k < nodes@.len() implies match #[trigger] nodes@[k].parent {
        Some(j) => j < k && last@[j as int] >= k,
        None => nodes@[k].entry.header is Object,
    } by {}
    while i < n
        invariant
            i <= n,
            n == nodes@.len(),
            nodes@ == tree.nodes@,
            last@.len() == n,
            forall|k: int|
                0 <= k < nodes@.len() ==> match #[trigger] nodes@[k].parent {
                    Some(j) => j < k && last@[j as int] >= k,
                    None => nodes@[k].entry.header is Object,
                },
            datas@.len() == i,
            records@.len() == i,
            objects@.len() == i,
            forall|k: int| 0 <= k < i ==> #[trigger] materialized(pack@, nodes@, k, records@[k], objects@[k]),
            forall|k: int|
                0 <= k < i ==> (#[trigger] object_spec(pack@, nodes@, k) matches Some((kind, d)) && (last@[k] >= i
                    ==> datas@[k]@ == d)),
        decreases n - i,
    {
        let node = nodes[i];
        let e = node.entry;
        assert forall|k: int| 0 <= k < i implies (#[trigger] object_spec(pack@, nodes@, k) matches Some((kind, d))
            && (last@[k] >= i ==> datas@[k]@ == d) && objects@[k].kind == kind) by {
            assert(materialized(pack@, nodes@, k, records@[k], objects@[k]));
        }
        let (kind, data) = match materialize(pack, nodes, i, &last, &datas, &objects) {
            None => {
                proof { lemma_first_failure(pack@, tree.nodes@, i as int, e.pack_offset); }
                return Err(TraverseError::PackDecode { offset: e.pack_offset });
            },
            Some(x) => x,
        };
        let id = compute_object_id(kind, data.as_slice());
        let rec = IndexEntry { id, pack_offset: e.pack_offset, crc32: e.crc32 };
        let info = ObjectInfo {
            kind,
            level: node.level,
            decompressed_size: e.decompressed_size,
            compressed_size: e.compressed_size,
            object_size: data.len() as u64,
        };
        assert(materialized(pack@, nodes@, i as int, rec, info));
        records.push(rec);
        objects.push(info);
        let ghost kept = datas@;
        if last[i] > i {
            datas.push(data);
        } else {
            datas.push(Vec::new());
        }
        if let Some(j) = node.parent {
            if last[j] == i {
                datas.set(j, Vec::new());
            }
        }
        proof {
            assert forall|k: int| 0 <= k < i + 1 implies (#[trigger] object_spec(pack@, nodes@, k) matches Some((kind, d))
                && (last@[k] >= i + 1 ==> datas@[k]@ == d)) by {
                if k < i {
                    if last@[k] >= i + 1 {
                        assert(datas@[k] == kept[k]);
                    }
                }
            }
        }
        i += 1;
    }
    Ok(Traversal { records, objects })
}

/// The id-to-offset lookup for the deltas by id of a pack whose bases lie in the pack itself: for
/// each delta by id, in pack order, the offset of the first earlier entry whose object has the
/// named id, or `None` where no earlier object has it. Objects are materialized in pack order to
/// learn their ids; one that does not decode has no id.
pub fn find_ref_bases(pack: &[u8], entries: &Vec<Entry>) -> (r: Vec<Option<u64>>)
    requires
        crate::delta_tree::offsets_ascend(entries@),
{
    let n = entries.len();
    let mut objects: Vec<Option<(ObjectKind, Vec<u8>)>> = Vec::new();
    let mut ids: Vec<Option<[u8; 20]>> = Vec::new();
    let mut answers: Vec<Option<u64>> = Vec::new();
    let mut i: usize = 0;
    while i < n
        invariant
            i <= n,
            n == entries@.len(),
            objects@.len() == i,
            ids@.len() == i,
            crate::delta_tree::offsets_ascend(entries@),
        decreases n - i,
    {
        let e = entries[i];
        let base: Option<usize> = match e.header {
            EntryHeader::Object(_) => None,
            EntryHeader::OfsDelta { base_distance } => if base_distance <= e.pack_offset {
                crate::thin::find_entry(entries, i, e.pack_offset - base_distance)
            } else {
                None
            },
            EntryHeader::RefDelta { base_id } => {
                let mut found: Option<usize> = None;
                let mut j: usize = 0;
                while j < i && found.is_none()
                    invariant
                        j <= i,
                        i == ids@.len(),
                        found matches Some(f) ==> f < i,
                    decreases i - j,
                {
                    if let Some(id) = &ids[j] {
                        if crate::bytes::bytes_equal(id, &base_id) {
                            found = Some(j);
                        }
                    }
                    j += 1;
                }
                match found {
                    Some(f) => answers.push(Some(entries[f].pack_offset)),
                    None => answers.push(None),
                }
                found
            },
        };
        let object: Option<(ObjectKind, Vec<u8>)> = match inflate_entry(pack, &e) {
            None => None,
            Some(raw) => match e.header {
                EntryHeader::Object(k) => Some((k, raw)),
                _ => match base {
                    None => None,
                    Some(j) => match &objects[j] {
                        None => None,
                        Some((k, b)) => match apply_delta(b.as_slice(), raw.as_slice()) {
                            None => None,
                            Some(o) => Some((*k, o)),
                        },
                    },
                },
            },
        };
        let id = match &object {
            None => None,
            Some((k, d)) => Some(compute_object_id(*k, d.as_slice())),
        };
        ids.push(id);
        objects.push(object);
        i += 1;
    }
    answers
}

/// Handles each fully materialized object of a traversal; implemented by users of the library.
pub trait ObjectProcessor<E> {
    /// Handle an object of kind `kind` with bytes `data`, whose index record is `entry`. An error
    /// ends the traversal.
    fn process(&mut self, kind: ObjectKind, data: &[u8], entry: &IndexEntry) -> Result<(), E>;
}

/// Why a traversal with a processor stopped.
pub enum ProcessError<E> {
    /// The entry at `offset` does not decode, and the safety check makes that fatal.
    PackDecode { offset: u64 },
    /// The processor failed.
    Processor(E),
}

/// What a traversal with a processor went through.
pub struct CheckedTraversal {
    /// The records of the objects that decoded, in pack order.
    pub records: Vec<IndexEntry>,
    /// What the statistics need of those objects, in the same order.
    pub objects: Vec<ObjectInfo>,
    /// Where the objects start that did not decode and were passed over.
    pub skipped: Vec<u64>,
}

/// The object of node `i`, given the objects of all nodes before it, where those that did not
/// decode are missing.
fn materialize_known(pack: &[u8], nodes: &Vec<Node>, i: usize, datas: &Vec<Option<(ObjectKind, Vec<u8>)>>) -> (r: Option<
    (ObjectKind, Vec<u8>),
>)
    requires
        i < nodes@.len(),
        i <= datas@.len(),
        forall|k: int|
            0 <= k < nodes@.len() ==> match #[trigger] nodes@[k].parent {
                Some(j) => j < k,
                None => nodes@[k].entry.header is Object,
            },
        forall|k: int|
            0 <= k < i ==> match #[trigger] object_spec(pack@, nodes@, k) {
                Some((kind, d)) => datas@[k] matches Some((k2, d2)) && k2 == kind && d2@ == d,
                None => datas@[k] is None,
            },
    ensures
        match r {
            Some((kind, d)) => object_spec(pack@, nodes@, i as int) == Some((kind, d@)),
            None => object_spec(pack@, nodes@, i as int) is None,
        },
{
    let node = nodes[i];
    let raw = match inflate_entry(pack, &node.entry) {
        None => return None,
        Some(d) => d,
    };
    match node.parent {
        None => match node.entry.header {
            EntryHeader::Object(k) => Some((k, raw)),
            _ => None,
        },
        Some(j) => {
            assert(match object_spec(pack@, nodes@, j as int) {
                Some((kind, d)) => datas@[j as int] matches Some((k2, d2)) && k2 == kind && d2@ == d,
                None => datas@[j as int] is None,
            });
            match &datas[j] {
                None => None,
                Some((kind, base)) => {
                    if let EntryHeader::RefDelta { base_id } = node.entry.header {
                        let id = compute_object_id(*kind, base.as_slice());
                        if !crate::bytes::bytes_equal(&id, &base_id) {
                            return None;
                        }
                    }
                    match apply_delta(base.as_slice(), raw.as_slice()) {
                        None => None,
                        Some(o) => Some((*kind, o)),
                    }
                },
            }
        },
    }
}

/// One of the first `n` nodes has the object that the record and the statistics describe.
pub open spec fn recorded_among(pack: Seq<u8>, nodes: Seq<Node>, n: int, rec: IndexEntry, info: ObjectInfo) -> bool {
    exists|x: int| 0 <= x < n && #[trigger] materialized(pack, nodes, x, rec, info)
}

/// One of the first `n` nodes starts at `offset` and does not decode.
pub open spec fn undecodable_among(pack: Seq<u8>, nodes: Seq<Node>, n: int, offset: u64) -> bool {
    exists|x: int| 0 <= x < n && #[trigger] object_spec(pack, nodes, x) is None && nodes[x].entry.pack_offset == offset
}

/// Materialize every object of the tree in pack order, as `traverse` does, and hand each one to
/// `processor`. An object that does not decode ends the traversal when `check` makes decode errors
/// fatal; otherwise it is passed over, and so are the deltas that build on it. Every node ends up
/// either recorded or passed over.
#[verifier::rlimit(100)]
pub fn traverse_with_processor<E, P: ObjectProcessor<E>>(
    pack: &[u8],
    tree: &Tree,
    check: SafetyCheck,
    processor: &mut P,
) -> (r: Result<CheckedTraversal, ProcessError<E>>)
    requires
        tree_wf(tree.nodes@, tree.roots@),
    ensures
        match r {
            Ok(t) => t.records@.len() == t.objects@.len() && t.records@.len() + t.skipped@.len() == tree.nodes@.len()
                && (t.skipped@.len() > 0 ==> !decode_errors_fatal(check)) && (forall|k: int|
                0 <= k < t.records@.len() ==> #[trigger] recorded_among(
                    pack@,
                    tree.nodes@,
                    tree.nodes@.len() as int,
                    t.records@[k],
                    t.objects@[k],
                )) && (forall|s: int|
                0 <= s < t.skipped@.len() ==> #[trigger] undecodable_among(
                    pack@,
                    tree.nodes@,
                    tree.nodes@.len() as int,
                    t.skipped@[s],
                )),
            Err(ProcessError::PackDecode { offset }) => decode_errors_fatal(check) && undecodable_among(
                pack@,
                tree.nodes@,
                tree.nodes@.len() as int,
                offset,
            ),
            Err(ProcessError::Processor(_)) => true,
        },
{
    let nodes = &tree.nodes;
    let n = nodes.len();
    let fatal = check.fatal_decode_error();
    let mut datas: Vec<Option<(ObjectKind, Vec<u8>)>> = Vec::new();
    let mut records: Vec<IndexEntry> = Vec::new();
    let mut objects: Vec<ObjectInfo> = Vec::new();
    let mut skipped: Vec<u64> = Vec::new();
    let mut i: usize = 0;
    assert forall|k: int| 0 <= k < nodes@.len() implies match #[trigger] nodes@[k].parent {
        Some(j) => j < k,
        None => nodes@[k].entry.header is Object,
    } by {}
    while i < n
        invariant
            i <= n,
            n == nodes@.len(),
            nodes@ == tree.nodes@,
            fatal == decode_errors_fatal(check),
            forall|k: int|
                0 <= k < nodes@.len() ==> match #[trigger] nodes@[k].parent {
                    Some(j) => j < k,
                    None => nodes@[k].entry.header is Object,
                },
            datas@.len() == i,
            records@.len() == objects@.len(),
            forall|k: int|
                0 <= k < i ==> match #[trigger] object_spec(pack@, nodes@, k) {
                    Some((kind, d)) => datas@[k] matches Some((k2, d2)) && k2 == kind && d2@ == d,
                    None => datas@[k] is None,
                },
            forall|k: int| 0 <= k < records@.len() ==> #[trigger] recorded_among(pack@, nodes@, i as int, records@[k], objects@[k]),
            records@.len() + skipped@.len() == i,
            skipped@.len() > 0 ==> !fatal,
            forall|s: int| 0 <= s < skipped@.len() ==> #[trigger] undecodable_among(pack@, nodes@, i as int, skipped@[s]),
        decreases n - i,
    {
        let node = nodes[i];
        let e = node.entry;
        match materialize_known(pack, nodes, i, &datas) {
            None => {
                if fatal {
                    assert(object_spec(pack@, nodes@, i as int) is None);
                    return Err(ProcessError::PackDecode { offset: e.pack_offset });
                }
                let ghost old_skipped = skipped@;
                skipped.push(e.pack_offset);
                datas.push(None);
                proof {
                    assert forall|s: int| 0 <= s < skipped@.len() implies #[trigger] undecodable_among(
                        pack@,
                        nodes@,
                        i + 1,
                        skipped@[s],
                    ) by {
                        if s == skipped@.len() - 1 {
                            assert(object_spec(pack@, nodes@, i as int) is None);
                        } else {
                            assert(skipped@[s] == old_skipped[s]);
                            assert(undecodable_among(pack@, nodes@, i as int, old_skipped[s]));
                        }
                    }
                    assert forall|k: int| 0 <= k < records@.len() implies #[trigger] recorded_among(
                        pack@,
                        nodes@,
                        i + 1,
                        records@[k],
                        objects@[k],
                    ) by {
                        assert(recorded_among(pack@, nodes@, i as int, records@[k], objects@[k]));
                    }
                }
            },
            Some((kind, data)) => {
                let id = compute_object_id(kind, data.as_slice());
                let rec = IndexEntry { id, pack_offset: e.pack_offset, crc32: e.crc32 };
                let info = ObjectInfo {
                    kind,
                    level: node.level,
                    decompressed_size: e.decompressed_size,
                    compressed_size: e.compressed_size,
                    object_size: data.len() as u64,
                };
                assert(materialized(pack@, nodes@, i as int, rec, info));
                match processor.process(kind, data.as_slice(), &rec) {
                    Err(err) => return Err(ProcessError::Processor(err)),
                    Ok(()) => {},
                }
                let ghost old_records = records@;
                let ghost old_objects = objects@;
                records.push(rec);
                objects.push(info);
                datas.push(Some((kind, data)));
                proof {
                    assert forall|k: int| 0 <= k < records@.len() implies #[trigger] recorded_among(
                        pack@,
                        nodes@,
                        i + 1,
                        records@[k],
                        objects@[k],
                    ) by {
                        if k == records@.len() - 1 {
                            assert(materialized(pack@, nodes@, i as int, records@[k], objects@[k]));
                        } else {
                            assert(records@[k] == old_records[k] && objects@[k] == old_objects[k]);
                            assert(recorded_among(pack@, nodes@, i as int, old_records[k], old_objects[k]));
                        }
                    }
                    assert forall|s: int| 0 <= s < skipped@.len() implies #[trigger] undecodable_among(
                        pack@,
                        nodes@,
                        i + 1,
                        skipped@[s],
                    ) by {
                        assert(undecodable_among(pack@, nodes@, i as int, skipped@[s]));
                    }
                }
            },
        }
        i += 1;
    }
    Ok(CheckedTraversal { records, objects, skipped })
}

} // verus!
