use vstd::prelude::*;

use crate::bytes::{be32, push_all, push_be32};
use crate::digest::{deflate, deflate_of, sha1, sha1_of};
use crate::pack_data::{decode_pack, models, pack_spec, DecodeError, DecodedPack, Entry, EntryHeader, EntryModel, HeaderModel, ObjectKind, PackVersion, PACK_SIGNATURE};

verus! {

/// The largest size of a pack this engine writes.
pub const MAX_PACK_SIZE: u64 = 0xffff_ffff;

/// An object as the caller's object database hands it out.
pub struct ObjectData {
    pub kind: ObjectKind,
    pub data: Vec<u8>,
}

/// Why a thin pack could not be completed.
#[derive(Debug, Clone, Copy, PartialEq, Eq)]
pub enum ThinError {
    /// The base of the delta by id at `offset`, the object `id`, was not found.
    UnresolvedRefDelta { offset: u64, id: [u8; 20] },
    /// The base of the offset delta at `offset` is not an entry of the pack.
    MissingBase { offset: u64 },
    /// The completed pack would hold more than `u32::MAX` objects.
    TooManyObjects,
    /// The completed pack would be larger than 4 GiB.
    PackTooLarge,
    /// The thin pack itself could not be read.
    Decode(DecodeError),
    /// There is not one answer of the object database per delta by id.
    WrongLookupCount,
}

/// The model of a failure to complete a thin pack.
pub enum ThinFailure {
    Unresolved(int, Seq<u8>),
    MissingBase(int),
    TooManyObjects,
    PackTooLarge,
}

/// Whether an error is the model failure `f`.
pub open spec fn is_failure(e: ThinError, f: ThinFailure) -> bool {
    match (e, f) {
        (ThinError::UnresolvedRefDelta { offset, id }, ThinFailure::Unresolved(o, i)) => offset == o && id@ == i,
        (ThinError::MissingBase { offset }, ThinFailure::MissingBase(o)) => offset == o,
        (ThinError::TooManyObjects, ThinFailure::TooManyObjects) => true,
        (ThinError::PackTooLarge, ThinFailure::PackTooLarge) => true,
        _ => false,
    }
}

/// The three bits that give a kind in an entry header.
pub open spec fn type_code(k: ObjectKind) -> nat {
    match k {
        ObjectKind::Commit => 1,
        ObjectKind::Tree => 2,
        ObjectKind::Blob => 3,
        ObjectKind::Tag => 4,
    }
}

/// Seven-bit groups of a size, least significant first, each but the last with its high bit set.
pub open spec fn size_groups(x: nat) -> Seq<u8>
    decreases x,
{
    if x < 128 {
        seq![x as u8]
    } else {
        seq![(128 + x % 128) as u8] + size_groups(x / 128)
    }
}

/// The header of an entry of type `code` and inflated size `size`, base reference not included.
pub open spec fn header_bytes(code: nat, size: nat) -> Seq<u8> {
    if size < 16 {
        seq![(code * 16 + size) as u8]
    } else {
        seq![(128 + code * 16 + size % 16) as u8] + size_groups(size / 16)
    }
}

/// Leading groups of a base distance, each with its high bit set.
pub open spec fn ofs_high(x: nat) -> Seq<u8>
    decreases x,
{
    if x < 128 {
        seq![(128 + x) as u8]
    } else {
        ofs_high((x / 128 - 1) as nat) + seq![(128 + x % 128) as u8]
    }
}

/// The encoding of a base distance, which reading turns back into the distance.
pub open spec fn ofs_bytes(d: nat) -> Seq<u8> {
    if d < 128 {
        seq![d as u8]
    } else {
        ofs_high((d / 128 - 1) as nat) + seq![(d % 128) as u8]
    }
}

/// The zlib stream of an entry, as it lies in the pack.
pub open spec fn stream_of(pack: Seq<u8>, m: EntryModel) -> Seq<u8> {
    pack.subrange(m.pack_offset + m.header_size, m.pack_offset + m.header_size + m.compressed_size)
}

/// How many of the first `n` entries are deltas by id.
pub open spec fn refs_before(es: Seq<EntryModel>, n: int) -> nat
    decreases n,
{
    if n <= 0 || n > es.len() {
        0
    } else {
        refs_before(es, n - 1) + if es[n - 1].header is Ref { 1nat } else { 0nat }
    }
}

/// Where the pack itself holds the base of the delta by id at `i`, as the id-to-offset lookup over
/// the pack answered (one answer per delta by id, in pack order; a missing answer means none).
pub open spec fn in_pack_base(es: Seq<EntryModel>, in_pack: Seq<Option<u64>>, i: int) -> Option<u64> {
    let r = refs_before(es, i) as int;
    if r < in_pack.len() {
        in_pack[r]
    } else {
        None
    }
}

/// Whether entry `i` is a delta by id whose base the pack does not hold.
pub open spec fn needs_lookup(es: Seq<EntryModel>, in_pack: Seq<Option<u64>>, i: int) -> bool {
    es[i].header is Ref && in_pack_base(es, in_pack, i) is None
}

/// How many of the first `n` entries are deltas by id whose base the pack does not hold.
pub open spec fn external_before(es: Seq<EntryModel>, in_pack: Seq<Option<u64>>, n: int) -> nat
    decreases n,
{
    if n <= 0 || n > es.len() {
        0
    } else {
        external_before(es, in_pack, n - 1) + if needs_lookup(es, in_pack, n - 1) { 1nat } else { 0nat }
    }
}

/// The ids of the bases the pack does not hold, in pack order: what the caller looks up.
pub open spec fn missing_ids(es: Seq<EntryModel>, in_pack: Seq<Option<u64>>, n: int) -> Seq<Seq<u8>>
    decreases n,
{
    if n <= 0 || n > es.len() {
        seq![]
    } else {
        missing_ids(es, in_pack, n - 1) + if needs_lookup(es, in_pack, n - 1) {
            match es[n - 1].header {
                HeaderModel::Ref(id) => seq![id],
                _ => seq![],
            }
        } else {
            seq![]
        }
    }
}

/// The model of an object found in the object database.
pub open spec fn found_model(o: Option<ObjectData>) -> Option<(ObjectKind, Seq<u8>)> {
    match o {
        Some(d) => Some((d.kind, d.data@)),
        None => None,
    }
}

/// The body of the completed pack after its first `n` entries, and where each of them now starts.
/// An offset delta gets the distance to its base's new place; a delta by id whose base the pack
/// holds stays as it is; any other delta by id gets its base, from `found`, written just before it
/// as a whole object, and becomes an offset delta against it.
pub open spec fn rewrite(
    pack: Seq<u8>,
    es: Seq<EntryModel>,
    in_pack: Seq<Option<u64>>,
    found: Seq<Option<(ObjectKind, Seq<u8>)>>,
    n: nat,
) -> Result<
    (Seq<u8>, Seq<int>),
    ThinFailure,
>
    decreases n,
{
    if n == 0 {
        Ok((seq![], seq![]))
    } else {
        match rewrite(pack, es, in_pack, found, (n - 1) as nat) {
            Err(f) => Err(f),
            Ok((b, offs)) => {
                let e = es[n - 1];
                let here: int = (12 + b.len()) as int;
                let next: Result<(Seq<u8>, int), ThinFailure> = match e.header {
                    HeaderModel::Object(k) => Ok(
                        (b + header_bytes(type_code(k), e.decompressed_size) + stream_of(pack, e), here),
                    ),
                    HeaderModel::Ofs(d) => if exists|j: int| 0 <= j < n - 1 && es[j].pack_offset == e.pack_offset - d {
                        let j = choose|j: int| 0 <= j < n - 1 && es[j].pack_offset == e.pack_offset - d;
                        Ok(
                            (
                                b + header_bytes(6, e.decompressed_size) + ofs_bytes((here - offs[j]) as nat)
                                    + stream_of(pack, e),
                                here,
                            ),
                        )
                    } else {
                        Err(ThinFailure::MissingBase(e.pack_offset))
                    },
                    HeaderModel::Ref(id) => if in_pack_base(es, in_pack, n - 1) is Some {
                        Ok((b + header_bytes(7, e.decompressed_size) + id + stream_of(pack, e), here))
                    } else {
                        match found[external_before(es, in_pack, n - 1) as int] {
                        None => Err(ThinFailure::Unresolved(e.pack_offset, id)),
                        Some((k, data)) => {
                            let b2 = b + header_bytes(type_code(k), data.len()) + deflate_of(data);
                            let at: int = (12 + b2.len()) as int;
                            Ok(
                                (
                                    b2 + header_bytes(6, e.decompressed_size) + ofs_bytes((at - here) as nat)
                                        + stream_of(pack, e),
                                    at,
                                ),
                            )
                        },
                    }
                    },
                };
                match next {
                    Err(f) => Err(f),
                    Ok((b3, at)) => if 12 + b3.len() + 20 > MAX_PACK_SIZE {
                        Err(ThinFailure::PackTooLarge)
                    } else {
                        Ok((b3, offs.push(at)))
                    },
                }
            },
        }
    }
}

/// The version field of a pack.
pub open spec fn version_number(v: PackVersion) -> u32 {
    match v {
        PackVersion::V2 => 2,
        PackVersion::V3 => 3,
    }
}

/// The completed pack: header, rewritten entries, and its own trailing hash.
pub open spec fn completed_pack(v: PackVersion, count: nat, body: Seq<u8>) -> Seq<u8> {
    let head = PACK_SIGNATURE@ + be32(version_number(v)) + be32(count as u32) + body;
    head + sha1_of(head)
}

/// Append the seven-bit groups of `x`.
fn push_size_groups(out: &mut Vec<u8>, x: u64)
    ensures
        final(out)@ == old(out)@ + size_groups(x as nat),
{
    let mut x = x;
    let ghost target = old(out)@ + size_groups(x as nat);
    while x >= 128
        invariant
            out@ + size_groups(x as nat) == target,
        decreases x,
    {
        let ghost before = out@;
        out.push((128 + x % 128) as u8);
        assert(before + size_groups(x as nat) =~= out@ + size_groups((x / 128) as nat));
        x = x / 128;
    }
    out.push(x as u8);
    assert(out@ =~= target);
}

/// Append the header of an entry of type `code` and inflated size `size`.
fn push_header(out: &mut Vec<u8>, code: u8, size: u64)
    requires
        1 <= code <= 7,
    ensures
        final(out)@ == old(out)@ + header_bytes(code as nat, size as nat),
{
    if size < 16 {
        out.push(code * 16 + size as u8);
        assert(final(out)@ =~= old(out)@ + header_bytes(code as nat, size as nat));
    } else {
        out.push(128 + code * 16 + (size % 16) as u8);
        let ghost mid = out@;
        push_size_groups(out, size / 16);
        assert(final(out)@ =~= old(out)@ + header_bytes(code as nat, size as nat));
    }
}

fn push_ofs_high(out: &mut Vec<u8>, x: u64)
    ensures
        final(out)@ == old(out)@ + ofs_high(x as nat),
    decreases x,
{
    if x >= 128 {
        push_ofs_high(out, x / 128 - 1);
    }
    out.push((128 + x % 128) as u8);
    assert(final(out)@ =~= old(out)@ + ofs_high(x as nat));
}

/// Append the encoding of the base distance `d`.
fn push_ofs(out: &mut Vec<u8>, d: u64)
    ensures
        final(out)@ == old(out)@ + ofs_bytes(d as nat),
{
    if d >= 128 {
        push_ofs_high(out, d / 128 - 1);
    }
    out.push((d % 128) as u8);
    assert(final(out)@ =~= old(out)@ + ofs_bytes(d as nat));
}

/// The ids of the bases of the deltas by id that the pack does not hold, in pack order: what the
/// caller looks up in its object database. `in_pack` holds the answers of the lookup over the pack
/// itself, one per delta by id.
pub fn ref_delta_bases(entries: &Vec<Entry>, in_pack: &Vec<Option<u64>>) -> (r: Vec<[u8; 20]>)
    ensures
        r@.map_values(|id: [u8; 20]| id@) == missing_ids(models(entries@), in_pack@, entries@.len() as int),
{
    let ghost es = models(entries@);
    let mut r: Vec<[u8; 20]> = Vec::new();
    let mut i: usize = 0;
    let mut refs_seen: usize = 0;
    while i < entries.len()
        invariant
            i <= entries@.len(),
            es == models(entries@),
            refs_seen == refs_before(es, i as int),
            r@.map_values(|id: [u8; 20]| id@) == missing_ids(es, in_pack@, i as int),
        decreases entries@.len() - i,
    {
        let ghost before = r@;
        assert(es[i as int] == entries@[i as int]@);
        proof {
            lemma_refs_bounded(es, i as int);
        }
        match entries[i].header {
            EntryHeader::RefDelta { base_id } => {
                let answer = if refs_seen < in_pack.len() { in_pack[refs_seen] } else { None };
                if answer.is_none() {
                    r.push(base_id);
                    assert(r@.map_values(|id: [u8; 20]| id@) =~= before.map_values(|id: [u8; 20]| id@).push(base_id@));
                }
                refs_seen = refs_seen + 1;
            },
            _ => {},
        }
        i += 1;
        assert(r@.map_values(|id: [u8; 20]| id@) =~= missing_ids(es, in_pack@, i as int));
    }
    r
}

proof fn lemma_refs_bounded(es: Seq<EntryModel>, n: int)
    ensures
        refs_before(es, n) <= if n < 0 { 0 } else { n },
    decreases n,
{
    if 0 < n <= es.len() {
        lemma_refs_bounded(es, n - 1);
    }
}

pub(crate) fn find_entry(entries: &Vec<Entry>, end: usize, offset: u64) -> (r: Option<usize>)
    requires
        end <= entries@.len(),
        forall|i: int, j: int| 0 <= i < j < end ==> entries@[i].pack_offset < entries@[j].pack_offset,
    ensures
        match r {
            Some(j) => j < end && entries@[j as int].pack_offset == offset,
            None => forall|j: int| 0 <= j < end ==> entries@[j].pack_offset != offset,
        },
{
    let mut lo: usize = 0;
    let mut hi: usize = end;
    while lo < hi
        invariant
            lo <= hi <= end,
            end <= entries@.len(),
            forall|i: int, j: int| 0 <= i < j < end ==> entries@[i].pack_offset < entries@[j].pack_offset,
            forall|j: int| 0 <= j < lo ==> entries@[j].pack_offset < offset,
            forall|j: int| hi <= j < end ==> entries@[j].pack_offset > offset,
        decreases hi - lo,
    {
        let mid = lo + (hi - lo) / 2;
        let o = entries[mid].pack_offset;
        if o == offset {
            return Some(mid);
        } else if o < offset {
            lo = mid + 1;
        } else {
            hi = mid;
        }
    }
    None
}

/// The models of what the object database returned.
pub open spec fn found_models(found: Seq<Option<ObjectData>>) -> Seq<Option<(ObjectKind, Seq<u8>)>> {
    found.map_values(|o: Option<ObjectData>| found_model(o))
}

/// New offsets as integers.
pub open spec fn int_offsets(offs: Seq<u64>) -> Seq<int> {
    offs.map_values(|x: u64| x as int)
}

/// What the completed pack rests on: the pack read without error, its entries, one answer of the
/// object database per delta by id.
pub open spec fn thin_ready(pack: Seq<u8>, decoded: DecodedPack, in_pack: Seq<Option<u64>>, found: Seq<Option<ObjectData>>) -> bool {
    pack_spec(pack) matches Ok((v, es, _, _)) && es == models(decoded.entries@) && decoded.version == v && found.len()
        == external_before(es, in_pack, es.len() as int)
}

proof fn lemma_external_monotone(es: Seq<EntryModel>, in_pack: Seq<Option<u64>>, a: int, b: int)
    requires
        0 <= a <= b <= es.len(),
    ensures
        external_before(es, in_pack, a) <= external_before(es, in_pack, b),
    decreases b - a,
{
    if a < b {
        lemma_external_monotone(es, in_pack, a, b - 1);
    }
}

fn type_code_of(k: ObjectKind) -> (r: u8)
    ensures
        r as nat == type_code(k),
        1 <= r <= 4,
{
    match k {
        ObjectKind::Commit => 1,
        ObjectKind::Tree => 2,
        ObjectKind::Blob => 3,
        ObjectKind::Tag => 4,
    }
}

/// Append entry `i` of the pack, rewritten, to `body`.
#[verifier::rlimit(50)]
fn rewrite_entry(
    pack: &[u8],
    decoded: &DecodedPack,
    in_pack: &Vec<Option<u64>>,
    found: &Vec<Option<ObjectData>>,
    i: usize,
    refs_seen: usize,
    ext_seen: usize,
    body: &mut Vec<u8>,
    offs: &mut Vec<u64>,
) -> (r: Result<(), ThinError>)
    requires
        thin_ready(pack@, *decoded, in_pack@, found@),
        i < decoded.entries@.len(),
        old(offs)@.len() == i,
        refs_seen == refs_before(models(decoded.entries@), i as int),
        ext_seen == external_before(models(decoded.entries@), in_pack@, i as int),
        rewrite(pack@, models(decoded.entries@), in_pack@, found_models(found@), i as nat) == Ok::<(Seq<u8>, Seq<int>), ThinFailure>(
            (old(body)@, int_offsets(old(offs)@)),
        ),
        forall|j: int| 0 <= j < i ==> old(offs)@[j] < 12 + old(body)@.len(),
        12 + old(body)@.len() + 20 <= MAX_PACK_SIZE,
    ensures
        match r {
            Err(e) => rewrite(pack@, models(decoded.entries@), in_pack@, found_models(found@), (i + 1) as nat) matches Err(f)
                && is_failure(e, f),
            Ok(()) => rewrite(pack@, models(decoded.entries@), in_pack@, found_models(found@), (i + 1) as nat) == Ok::<
                (Seq<u8>, Seq<int>),
                ThinFailure,
            >((final(body)@, int_offsets(final(offs)@))) && final(offs)@.len() == i + 1 && (forall|j: int|
                0 <= j < i + 1 ==> final(offs)@[j] < 12 + final(body)@.len()) && 12 + final(body)@.len() + 20
                <= MAX_PACK_SIZE,
        },
{
    let ghost es = models(decoded.entries@);
    let ghost fm = found_models(found@);
    let ghost b0 = body@;
    let ghost o0 = offs@;
    let len = pack.len();
    proof {
        crate::pack_data::lemma_decoded_offsets_ascend(pack@);
        assert(es[i as int] == decoded.entries@[i as int]@);
        assert(12 <= es[i as int].pack_offset);
        assert forall|a: int, b: int| 0 <= a < b < i implies decoded.entries@[a].pack_offset
            < decoded.entries@[b].pack_offset by {
            assert(es[a] == decoded.entries@[a]@);
            assert(es[b] == decoded.entries@[b]@);
        }
    }
    let e = decoded.entries[i];
    let here = 12 + body.len() as u64;
    let start = (e.pack_offset + e.header_size) as usize;
    let stop = start + e.compressed_size as usize;
    let stream = vstd::slice::slice_subrange(pack, start, stop);
    assert(stream@ == stream_of(pack@, es[i as int]));
    let at: u64;
    match e.header {
        EntryHeader::Object(k) => {
            push_header(body, type_code_of(k), e.decompressed_size);
            at = here;
        },
        EntryHeader::OfsDelta { base_distance } => {
            let found_base = if base_distance > e.pack_offset {
                None
            } else {
                find_entry(&decoded.entries, i, e.pack_offset - base_distance)
            };
            match found_base {
                None => {
                    assert(!(exists|j: int| 0 <= j < i && es[j].pack_offset == es[i as int].pack_offset - base_distance)) by {
                        if exists|j: int| 0 <= j < i && es[j].pack_offset == es[i as int].pack_offset - base_distance {
                            let j = choose|j: int| 0 <= j < i && es[j].pack_offset == es[i as int].pack_offset - base_distance;
                            assert(es[j] == decoded.entries@[j]@);
                        }
                    }
                    return Err(ThinError::MissingBase { offset: e.pack_offset });
                },
                Some(j) => {
                    let ghost c = choose|j: int| 0 <= j < i && es[j].pack_offset == es[i as int].pack_offset - base_distance;
                    assert(es[j as int] == decoded.entries@[j as int]@);
                    assert(c == j as int) by {
                        if c < j as int {
                            assert(es[c].pack_offset < es[j as int].pack_offset);
                        } else if c > j as int {
                            assert(es[j as int].pack_offset < es[c].pack_offset);
                        }
                    }
                    assert(int_offsets(o0)[j as int] == offs@[j as int] as int);
                    let base_at = offs[j];
                    push_header(body, 6, e.decompressed_size);
                    push_ofs(body, here - base_at);
                    at = here;
                },
            }
        },
        EntryHeader::RefDelta { base_id } => {
            let answer = if refs_seen < in_pack.len() { in_pack[refs_seen] } else { None };
            if answer.is_some() {
                push_header(body, 7, e.decompressed_size);
                push_all(body, &base_id);
                at = here;
            } else {
            proof {
                lemma_external_monotone(es, in_pack@, i as int + 1, es.len() as int);
            }
            match &found[ext_seen] {
                None => {
                    return Err(ThinError::UnresolvedRefDelta { offset: e.pack_offset, id: base_id });
                },
                Some(obj) => {
                    assert(fm[ext_seen as int] == Some((obj.kind, obj.data@)));
                    push_header(body, type_code_of(obj.kind), obj.data.len() as u64);
                    let z = deflate(obj.data.as_slice());
                    push_all(body, z.as_slice());
                    if body.len() as u128 + 32 > MAX_PACK_SIZE as u128 {
                        let ghost b2 = body@;
                        let ghost tail = header_bytes(6, e.decompressed_size as nat) + ofs_bytes((12 + b2.len() - here) as nat)
                            + stream_of(pack@, es[i as int]);
                        assert((b2 + tail).len() >= b2.len());
                        return Err(ThinError::PackTooLarge);
                    }
                    at = 12 + body.len() as u64;
                    push_header(body, 6, e.decompressed_size);
                    push_ofs(body, at - here);
                },
            }
            }
        },
    }
    push_all(body, stream);
    if body.len() as u128 + 32 > MAX_PACK_SIZE as u128 {
        return Err(ThinError::PackTooLarge);
    }
    offs.push(at);
    proof {
        assert(int_offsets(offs@) =~= int_offsets(o0).push(at as int));
        assert forall|j: int| 0 <= j < i + 1 implies offs@[j] < 12 + body@.len() by {
            if j < i {
                assert(offs@[j] == o0[j]);
            }
        }
    }
    Ok(())
}

/// Complete a thin pack: each delta by id gets its base, which the caller looked up in its object
/// database (one answer per id of `ref_delta_bases`, in order), written as a whole object just
/// before it, and becomes an offset delta against it; offset deltas get the distances of the new
/// layout. The result is a pack of its own, with its own count and trailing hash.
pub fn complete_thin_pack(
    pack: &[u8],
    decoded: &DecodedPack,
    in_pack: &Vec<Option<u64>>,
    found: &Vec<Option<ObjectData>>,
) -> (r: Result<Vec<u8>, ThinError>)
    requires
        thin_ready(pack@, *decoded, in_pack@, found@),
    ensures
        ({
            let es = models(decoded.entries@);
            let total = es.len() + external_before(es, in_pack@, es.len() as int);
            if total > u32::MAX {
                r == Err::<Vec<u8>, ThinError>(ThinError::TooManyObjects)
            } else {
                match rewrite(pack@, es, in_pack@, found_models(found@), es.len()) {
                    Err(f) => r matches Err(e) && is_failure(e, f),
                    Ok((body, _)) => r matches Ok(p) && p@ == completed_pack(decoded.version, total, body),
                }
            }
        }),
{
    let ghost es = models(decoded.entries@);
    let n = decoded.entries.len();
    assert(found@.len() == external_before(es, in_pack@, n as int));
    let total = n as u128 + found.len() as u128;
    if total > 0xffff_ffff {
        return Err(ThinError::TooManyObjects);
    }
    let mut body: Vec<u8> = Vec::new();
    let mut offs: Vec<u64> = Vec::new();
    let mut refs_seen: usize = 0;
    let mut ext_seen: usize = 0;
    let mut i: usize = 0;
    assert(int_offsets(offs@) =~= seq![]);
    while i < n
        invariant
            thin_ready(pack@, *decoded, in_pack@, found@),
            n == decoded.entries@.len(),
            es == models(decoded.entries@),
            found@.len() == external_before(es, in_pack@, n as int),
            ext_seen == external_before(es, in_pack@, i as int),
            total == n + found@.len(),
            total <= u32::MAX,
            i <= n,
            offs@.len() == i,
            refs_seen == refs_before(es, i as int),
            rewrite(pack@, es, in_pack@, found_models(found@), i as nat) == Ok::<(Seq<u8>, Seq<int>), ThinFailure>(
                (body@, int_offsets(offs@)),
            ),
            forall|j: int| 0 <= j < i ==> offs@[j] < 12 + body@.len(),
            12 + body@.len() + 20 <= MAX_PACK_SIZE,
        decreases n - i,
    {
        match rewrite_entry(pack, decoded, in_pack, found, i, refs_seen, ext_seen, &mut body, &mut offs) {
            Err(e) => {
                proof {
                    lemma_rewrite_error_stays(pack@, es, in_pack@, found_models(found@), (i + 1) as nat, n as nat);
                }
                return Err(e);
            },
            Ok(()) => {},
        }
        if let EntryHeader::RefDelta { .. } = decoded.entries[i].header {
            proof {
                assert(es[i as int] == decoded.entries@[i as int]@);
                lemma_refs_bounded(es, i as int);
                lemma_external_monotone(es, in_pack@, i as int + 1, es.len() as int);
            }
            let answer = if refs_seen < in_pack.len() { in_pack[refs_seen] } else { None };
            if answer.is_none() {
                ext_seen = ext_seen + 1;
            }
            refs_seen = refs_seen + 1;
        } else {
            assert(es[i as int] == decoded.entries@[i as int]@);
        }
        i += 1;
    }
    let mut out: Vec<u8> = Vec::new();
    push_all(&mut out, &PACK_SIGNATURE);
    push_be32(&mut out, match decoded.version {
        PackVersion::V2 => 2,
        PackVersion::V3 => 3,
    });
    push_be32(&mut out, total as u32);
    push_all(&mut out, body.as_slice());
    let hash = sha1(out.as_slice());
    let ghost head = out@;
    push_all(&mut out, &hash);
    assert(head =~= PACK_SIGNATURE@ + be32(version_number(decoded.version)) + be32(total as u32) + body@);
    Ok(out)
}

proof fn lemma_rewrite_error_stays(
    pack: Seq<u8>,
    es: Seq<EntryModel>,
    in_pack: Seq<Option<u64>>,
    found: Seq<Option<(ObjectKind, Seq<u8>)>>,
    n: nat,
    m: nat,
)
    requires
        n <= m,
        rewrite(pack, es, in_pack, found, n) is Err,
    ensures
        rewrite(pack, es, in_pack, found, m) == rewrite(pack, es, in_pack, found, n),
    decreases m - n,
{
    if n < m {
        lemma_rewrite_error_stays(pack, es, in_pack, found, n, (m - 1) as nat);
    }
}

/// Read a thin pack and complete it with the objects the caller looked up in its object database:
/// `in_pack` answers, per delta by id in pack order, where the pack itself holds the base (see
/// `find_ref_bases`); `found` holds one answer of the object database per id of `ref_delta_bases`.
pub fn resolve_thin_pack(pack: &[u8], in_pack: &Vec<Option<u64>>, found: &Vec<Option<ObjectData>>) -> (r: Result<Vec<u8>, ThinError>)
    ensures
        match pack_spec(pack@) {
            Err(e) => r == Err::<Vec<u8>, ThinError>(ThinError::Decode(e)),
            Ok((v, es, _, _)) => if found@.len() != external_before(es, in_pack@, es.len() as int) {
                r == Err::<Vec<u8>, ThinError>(ThinError::WrongLookupCount)
            } else {
                let total = es.len() + external_before(es, in_pack@, es.len() as int);
                if total > u32::MAX {
                    r == Err::<Vec<u8>, ThinError>(ThinError::TooManyObjects)
                } else {
                    match rewrite(pack@, es, in_pack@, found_models(found@), es.len()) {
                        Err(f) => r matches Err(e) && is_failure(e, f),
                        Ok((body, _)) => r matches Ok(p) && p@ == completed_pack(v, total, body),
                    }
                }
            },
        },
{
    let decoded = match decode_pack(pack) {
        Err(e) => return Err(ThinError::Decode(e)),
        Ok(d) => d,
    };
    let ids = ref_delta_bases(&decoded.entries, in_pack);
    proof {
        assert(ids@.map_values(|id: [u8; 20]| id@).len() == ids@.len());
        lemma_missing_count(models(decoded.entries@), in_pack@, decoded.entries@.len() as int);
    }
    if ids.len() != found.len() {
        return Err(ThinError::WrongLookupCount);
    }
    complete_thin_pack(pack, &decoded, in_pack, found)
}

proof fn lemma_missing_count(es: Seq<EntryModel>, in_pack: Seq<Option<u64>>, n: int)
    ensures
        missing_ids(es, in_pack, n).len() == external_before(es, in_pack, n),
    decreases n,
{
    if 0 < n <= es.len() {
        lemma_missing_count(es, in_pack, n - 1);
    }
}

/// Completing a thin pack keeps entries in ascending order: every entry starts after the one
/// before it, within the body written so far. In particular a delta by id that gets its base from
/// the object database starts after that base, which is written just before it.
pub proof fn completed_entries_ascend(
    pack: Seq<u8>,
    es: Seq<EntryModel>,
    in_pack: Seq<Option<u64>>,
    found: Seq<Option<(ObjectKind, Seq<u8>)>>,
    n: nat,
)
    requires
        n <= es.len(),
    ensures
        rewrite(pack, es, in_pack, found, n) matches Ok((b, offs)) ==> offs.len() == n && (forall|k: int|
            0 <= k < offs.len() ==> 12 <= #[trigger] offs[k] < 12 + b.len()) && (forall|k: int, l: int|
            0 <= k < l < offs.len() ==> offs[k] < offs[l]),
    decreases n,
{
    if n > 0 {
        completed_entries_ascend(pack, es, in_pack, found, (n - 1) as nat);
        match rewrite(pack, es, in_pack, found, (n - 1) as nat) {
            Ok((b, offs)) => {
                let e = es[n - 1];
                match e.header {
                    HeaderModel::Object(k) => {
                        assert(header_bytes(type_code(k), e.decompressed_size).len() > 0);
                    },
                    HeaderModel::Ofs(d) => {
                        assert(header_bytes(6, e.decompressed_size).len() > 0);
                    },
                    HeaderModel::Ref(id) => {
                        assert(header_bytes(7, e.decompressed_size).len() > 0);
                        assert(header_bytes(6, e.decompressed_size).len() > 0);
                    },
                }
            },
            Err(_) => {},
        }
    }
}

} // verus!
