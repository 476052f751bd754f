use vstd::prelude::*;

use crate::bytes::read_be32;
use crate::digest::{crc32, crc32_of, inflate_once, inflate_once_of, sha1, sha1_of};

verus! {

/// The signature that opens every pack.
pub const PACK_SIGNATURE: [u8; 4] = [0x50, 0x41, 0x43, 0x4b];

/// Continuation groups of an entry's size stop being accepted once their weight reaches this value,
/// which keeps every size below 2^60.
pub const SIZE_WEIGHT_LIMIT: u64 = 0x20_0000_0000_0000;

/// The kind of a fully materialized object.
#[derive(Debug, Clone, Copy, PartialEq, Eq, Structural)]
pub enum ObjectKind {
    Commit,
    Tree,
    Blob,
    Tag,
}

/// The two pack versions this engine reads.
#[derive(Debug, Clone, Copy, PartialEq, Eq, Structural)]
pub enum PackVersion {
    V2,
    V3,
}

/// What the header of one pack entry says it holds.
#[derive(Debug, Clone, Copy, PartialEq, Eq)]
pub enum EntryHeader {
    Object(ObjectKind),
    /// A delta against the entry `base_distance` bytes before this one.
    OfsDelta { base_distance: u64 },
    /// A delta against the object with id `base_id`.
    RefDelta { base_id: [u8; 20] },
}

/// The model of an entry header.
pub enum HeaderModel {
    Object(ObjectKind),
    Ofs(nat),
    Ref(Seq<u8>),
}

impl View for EntryHeader {
    type V = HeaderModel;

    open spec fn view(&self) -> HeaderModel {
        match *self {
            EntryHeader::Object(k) => HeaderModel::Object(k),
            EntryHeader::OfsDelta { base_distance } => HeaderModel::Ofs(base_distance as nat),
            EntryHeader::RefDelta { base_id } => HeaderModel::Ref(base_id@),
        }
    }
}

/// One entry of a pack, as found in its bytes.
#[derive(Debug, Clone, Copy, PartialEq, Eq)]
pub struct Entry {
    pub header: EntryHeader,
    /// Where the entry starts.
    pub pack_offset: u64,
    /// How many bytes the header takes, base reference included.
    pub header_size: u64,
    /// The size of the inflated data.
    pub decompressed_size: u64,
    /// The size of the zlib stream that follows the header.
    pub compressed_size: u64,
    /// The CRC-32 of the entry's bytes, header and stream.
    pub crc32: u32,
}

/// The model of an entry.
pub struct EntryModel {
    pub header: HeaderModel,
    pub pack_offset: int,
    pub header_size: int,
    pub decompressed_size: nat,
    pub compressed_size: nat,
    pub crc32: u32,
}

impl View for Entry {
    type V = EntryModel;

    open spec fn view(&self) -> EntryModel {
        EntryModel {
            header: self.header@,
            pack_offset: self.pack_offset as int,
            header_size: self.header_size as int,
            decompressed_size: self.decompressed_size as nat,
            compressed_size: self.compressed_size as nat,
            crc32: self.crc32,
        }
    }
}

/// Why the bytes of a pack could not be read.
#[derive(Debug, Clone, Copy, PartialEq, Eq, Structural)]
pub enum DecodeError {
    /// The pack does not start with a valid header.
    PackHeaderMismatch,
    /// The header of the entry at `offset` is malformed or cut short.
    EntryHeader { offset: u64 },
    /// The zlib stream of the entry at `offset` is corrupt, or does not have the announced size.
    Inflate { offset: u64 },
    /// The pack ends before its trailing hash.
    UnexpectedEnd,
    /// The trailing hash is not the hash of the pack's bytes.
    PackChecksumMismatch,
}

/// A pack read in full.
pub struct DecodedPack {
    pub version: PackVersion,
    pub entries: Vec<Entry>,
    /// Where the trailing hash starts.
    pub pack_end: u64,
    pub trailer: [u8; 20],
}

/// The version and object count given by the first twelve bytes of a pack.
pub open spec fn pack_header_spec(s: Seq<u8>) -> Option<(PackVersion, u32)> {
    if s.len() < 12 || s.subrange(0, 4) != PACK_SIGNATURE@ {
        None
    } else if read_be32(s, 4) == 2 {
        Some((PackVersion::V2, read_be32(s, 8) as u32))
    } else if read_be32(s, 4) == 3 {
        Some((PackVersion::V3, read_be32(s, 8) as u32))
    } else {
        None
    }
}

/// The rest of an entry's size, read from `i` on: little-endian groups of seven bits, each byte
/// with the high bit set announcing another one. `acc` is what was read so far, `weight` the
/// weight of the next group.
pub open spec fn size_rest(s: Seq<u8>, i: int, acc: nat, weight: nat) -> Option<(nat, int)>
    decreases s.len() - i,
{
    if i < 0 || i >= s.len() {
        None
    } else {
        let b = s[i];
        let acc2 = acc + (b % 128) as nat * weight;
        if b < 128 {
            Some((acc2, i + 1))
        } else if weight * 128 > SIZE_WEIGHT_LIMIT {
            None
        } else {
            size_rest(s, i + 1, acc2, weight * 128)
        }
    }
}

/// The rest of a base distance, read from `i` on: big-endian groups of seven bits, where each
/// group that follows adds one to what came before it, so that no value has two encodings.
pub open spec fn ofs_rest(s: Seq<u8>, i: int, v: nat) -> Option<(nat, int)>
    decreases s.len() - i,
{
    if i < 0 || i >= s.len() {
        None
    } else {
        let b = s[i];
        let v2 = (v + 1) * 128 + (b % 128) as nat;
        if v2 > u64::MAX {
            None
        } else if b < 128 {
            Some((v2, i + 1))
        } else {
            ofs_rest(s, i + 1, v2)
        }
    }
}

/// The base distance of an offset delta whose encoding starts at `i`.
pub open spec fn ofs_distance(s: Seq<u8>, i: int) -> Option<(nat, int)> {
    if i < 0 || i >= s.len() {
        None
    } else if s[i] < 128 {
        Some((s[i] as nat, i + 1))
    } else {
        ofs_rest(s, i + 1, (s[i] % 128) as nat)
    }
}

/// The three bits of the first header byte that give the entry's type.
pub open spec fn type_bits(b: u8) -> u8 {
    ((b / 16) % 8) as u8
}

/// The header of the entry at `p`: what it holds, its inflated size, and where its data starts.
pub open spec fn header_spec(s: Seq<u8>, p: int) -> Option<(HeaderModel, nat, int)> {
    if p < 0 || p >= s.len() {
        None
    } else {
        let b0 = s[p];
        let size = if b0 < 128 {
            Some(((b0 % 16) as nat, p + 1))
        } else {
            size_rest(s, p + 1, (b0 % 16) as nat, 16)
        };
        match size {
            None => None,
            Some((n, q)) => {
                let t = type_bits(b0);
                if t == 1 {
                    Some((HeaderModel::Object(ObjectKind::Commit), n, q))
                } else if t == 2 {
                    Some((HeaderModel::Object(ObjectKind::Tree), n, q))
                } else if t == 3 {
                    Some((HeaderModel::Object(ObjectKind::Blob), n, q))
                } else if t == 4 {
                    Some((HeaderModel::Object(ObjectKind::Tag), n, q))
                } else if t == 6 {
                    match ofs_distance(s, q) {
                        None => None,
                        Some((d, r)) => Some((HeaderModel::Ofs(d), n, r)),
                    }
                } else if t == 7 {
                    if q + 20 <= s.len() {
                        Some((HeaderModel::Ref(s.subrange(q, q + 20)), n, q + 20))
                    } else {
                        None
                    }
                } else {
                    None
                }
            },
        }
    }
}

/// The entry at `p` and where the next one starts.
pub open spec fn entry_spec(s: Seq<u8>, p: int) -> Result<(EntryModel, int), DecodeError> {
    match header_spec(s, p) {
        None => Err(DecodeError::EntryHeader { offset: p as u64 }),
        Some((_, n, _)) if n + 1 > usize::MAX => Err(DecodeError::Inflate { offset: p as u64 }),
        Some((h, n, q)) => match inflate_once_of(s.subrange(q, s.len() as int), n + 1) {
            Some((true, used_in, used_out, _)) if used_out == n => Ok(
                (
                    EntryModel {
                        header: h,
                        pack_offset: p,
                        header_size: q - p,
                        decompressed_size: n,
                        compressed_size: used_in,
                        crc32: crc32_of(s.subrange(p, q + used_in)),
                    },
                    q + used_in,
                ),
            ),
            _ => Err(DecodeError::Inflate { offset: p as u64 }),
        },
    }
}

/// The first `n` entries from `p` on, and where the entry after them starts.
pub open spec fn entries_spec(s: Seq<u8>, p: int, n: nat) -> Result<(Seq<EntryModel>, int), DecodeError>
    decreases n,
{
    if n == 0 {
        Ok((seq![], p))
    } else {
        match entries_spec(s, p, (n - 1) as nat) {
            Err(e) => Err(e),
            Ok((es, q)) => match entry_spec(s, q) {
                Err(e) => Err(e),
                Ok((e, r)) => Ok((es.push(e), r)),
            },
        }
    }
}

/// A whole pack: version, entries, where the trailing hash starts, and the trailing hash.
pub open spec fn pack_spec(s: Seq<u8>) -> Result<(PackVersion, Seq<EntryModel>, int, Seq<u8>), DecodeError> {
    match pack_header_spec(s) {
        None => Err(DecodeError::PackHeaderMismatch),
        Some((v, n)) => match entries_spec(s, 12, n as nat) {
            Err(e) => Err(e),
            Ok((es, end)) => if end + 20 > s.len() {
                Err(DecodeError::UnexpectedEnd)
            } else if sha1_of(s.subrange(0, end)) != s.subrange(end, end + 20) {
                Err(DecodeError::PackChecksumMismatch)
            } else {
                Ok((v, es, end, s.subrange(end, end + 20)))
            },
        },
    }
}

/// Once reading the first `n` entries fails, reading more fails the same way.
proof fn lemma_entries_error_stays(s: Seq<u8>, p: int, n: nat, m: nat)
    requires
        n <= m,
        entries_spec(s, p, n) is Err,
    ensures
        entries_spec(s, p, m) == entries_spec(s, p, n),
    decreases m - n,
{
    if n < m {
        lemma_entries_error_stays(s, p, n, (m - 1) as nat);
    }
}

proof fn lemma_pack_error(s: Seq<u8>, v: PackVersion, count: u32, k: nat)
    requires
        pack_header_spec(s) == Some((v, count)),
        k <= count,
        entries_spec(s, 12, k) is Err,
    ensures
        pack_spec(s) matches Err(e) && entries_spec(s, 12, k) == Err::<(Seq<EntryModel>, int), DecodeError>(e),
{
    lemma_entries_error_stays(s, 12, k, count as nat);
}

proof fn lemma_size_rest_advances(s: Seq<u8>, i: int, acc: nat, weight: nat)
    ensures
        size_rest(s, i, acc, weight) matches Some((_, e)) ==> e > i,
    decreases s.len() - i,
{
    if 0 <= i < s.len() && s[i] >= 128 && weight * 128 <= SIZE_WEIGHT_LIMIT {
        lemma_size_rest_advances(s, i + 1, acc + (s[i] % 128) as nat * weight, weight * 128);
    }
}

proof fn lemma_ofs_rest_advances(s: Seq<u8>, i: int, v: nat)
    ensures
        ofs_rest(s, i, v) matches Some((_, e)) ==> e > i,
    decreases s.len() - i,
{
    if 0 <= i < s.len() {
        lemma_ofs_rest_advances(s, i + 1, (v + 1) * 128 + (s[i] % 128) as nat);
    }
}

/// An entry's header takes at least one byte.
proof fn lemma_header_advances(s: Seq<u8>, p: int)
    ensures
        header_spec(s, p) matches Some((_, _, q)) ==> q > p,
{
    if 0 <= p < s.len() {
        lemma_size_rest_advances(s, p + 1, (s[p] % 128 % 16) as nat, 16);
        lemma_size_rest_advances(s, p + 1, (s[p] % 16) as nat, 16);
        match header_spec(s, p) {
            Some((_, _, q)) => {
                let size = if s[p] < 128 {
                    Some(((s[p] % 16) as nat, p + 1))
                } else {
                    size_rest(s, p + 1, (s[p] % 16) as nat, 16)
                };
                let q0 = size->Some_0.1;
                lemma_ofs_rest_advances(s, q0 + 1, (s[q0] % 128) as nat);
            },
            None => {},
        }
    }
}

/// Entries read one after the other start at strictly ascending offsets, all from `p` on and
/// before where reading stopped.
proof fn lemma_entries_ascend(s: Seq<u8>, p: int, n: nat)
    ensures
        entries_spec(s, p, n) matches Ok((es, end)) ==> p <= end && forall|i: int|
            0 <= i < es.len() ==> p <= #[trigger] es[i].pack_offset < end && es[i].header_size >= 1
                && es[i].pack_offset + es[i].header_size + es[i].compressed_size <= end && forall|j: int|
                i < j < es.len() ==> es[i].pack_offset < #[trigger] es[j].pack_offset,
    decreases n,
{
    if n > 0 {
        lemma_entries_ascend(s, p, (n - 1) as nat);
        match entries_spec(s, p, (n - 1) as nat) {
            Ok((es, q)) => {
                lemma_header_advances(s, q);
            },
            Err(_) => {},
        }
    }
}

/// The entries of a pack that reads without error start at strictly ascending offsets.
pub proof fn lemma_decoded_offsets_ascend(s: Seq<u8>)
    ensures
        pack_spec(s) matches Ok((_, es, end, _)) ==> (forall|i: int, j: int|
            0 <= i < j < es.len() ==> es[i].pack_offset < es[j].pack_offset) && (forall|i: int|
            0 <= i < es.len() ==> 12 <= #[trigger] es[i].pack_offset && es[i].header_size >= 1
                && es[i].pack_offset + es[i].header_size + es[i].compressed_size <= end) && end + 20 <= s.len(),
{
    match pack_header_spec(s) {
        Some((_, n)) => {
            lemma_entries_ascend(s, 12, n as nat);
        },
        None => {},
    }
}

/// Each entry read in a row is what reading at its own offset gives.
proof fn lemma_entries_found(s: Seq<u8>, p: int, n: nat)
    ensures
        entries_spec(s, p, n) matches Ok((es, _)) ==> forall|i: int|
            0 <= i < es.len() ==> (entry_spec(s, #[trigger] es[i].pack_offset) matches Ok((m, _)) && m == es[i]),
    decreases n,
{
    if n > 0 {
        lemma_entries_found(s, p, (n - 1) as nat);
        match entries_spec(s, p, (n - 1) as nat) {
            Ok((es, q)) => {
                match entry_spec(s, q) {
                    Ok((e, r)) => {
                        let all = es.push(e);
                        assert forall|i: int| 0 <= i < all.len() implies (entry_spec(s, #[trigger] all[i].pack_offset) matches Ok((m, _))
                            && m == all[i]) by {
                            if i < es.len() {
                                assert(all[i] == es[i]);
                            }
                        }
                    },
                    Err(_) => {},
                }
            },
            Err(_) => {},
        }
    }
}

/// Every entry of a pack that reads without error is what reading at its own offset gives.
pub proof fn lemma_decoded_entries_found(s: Seq<u8>)
    ensures
        pack_spec(s) matches Ok((_, es, _, _)) ==> forall|i: int|
            0 <= i < es.len() ==> (entry_spec(s, #[trigger] es[i].pack_offset) matches Ok((m, _)) && m == es[i]),
{
    match pack_header_spec(s) {
        Some((_, n)) => {
            lemma_entries_found(s, 12, n as nat);
        },
        None => {},
    }
}

proof fn lemma_entries_len(s: Seq<u8>, p: int, n: nat)
    ensures
        entries_spec(s, p, n) matches Ok((es, _)) ==> es.len() == n,
    decreases n,
{
    if n > 0 {
        lemma_entries_len(s, p, (n - 1) as nat);
    }
}

/// A pack that reads without error has as many entries as its header announces.
pub proof fn lemma_decoded_count(s: Seq<u8>)
    ensures
        pack_spec(s) matches Ok((_, es, _, _)) ==> pack_header_spec(s) matches Some((_, n)) && es.len() == n,
{
    match pack_header_spec(s) {
        Some((_, n)) => lemma_entries_len(s, 12, n as nat),
        None => {},
    }
}

/// The models of a sequence of entries.
pub open spec fn models(es: Seq<Entry>) -> Seq<EntryModel> {
    es.map_values(|e: Entry| e@)
}

/// Read the version and object count from the start of a pack.
pub fn decode_pack_header(s: &[u8]) -> (r: Option<(PackVersion, u32)>)
    ensures
        r == pack_header_spec(s@),
{
    if s.len() < 12 {
        return None;
    }
    let mut i: usize = 0;
    while i < 4
        invariant
            i <= 4,
            s@.len() >= 12,
            forall|j: int| 0 <= j < i ==> s@[j] == PACK_SIGNATURE@[j],
        decreases 4 - i,
    {
        if s[i] != PACK_SIGNATURE[i] {
            assert(s@.subrange(0, 4)[i as int] != PACK_SIGNATURE@[i as int]);
            return None;
        }
        i += 1;
    }
    assert(s@.subrange(0, 4) =~= PACK_SIGNATURE@);
    let version = crate::bytes::get_be32(s, 4);
    let count = crate::bytes::get_be32(s, 8);
    if version == 2 {
        Some((PackVersion::V2, count))
    } else if version == 3 {
        Some((PackVersion::V3, count))
    } else {
        None
    }
}

pub(crate) fn read_size_rest(s: &[u8], start: usize, acc0: u64, weight0: u64) -> (r: Option<(u64, usize)>)
    requires
        acc0 < weight0,
        1 <= weight0 <= SIZE_WEIGHT_LIMIT,
    ensures
        match r {
            None => size_rest(s@, start as int, acc0 as nat, weight0 as nat) is None,
            Some((n, e)) => size_rest(s@, start as int, acc0 as nat, weight0 as nat) == Some((n as nat, e as int))
                && n < 0x1000_0000_0000_0000 && start < e <= s@.len(),
        },
{
    let mut i = start;
    let mut acc = acc0;
    let mut weight = weight0;
    while i < s.len()
        invariant
            acc < weight,
            1 <= weight <= SIZE_WEIGHT_LIMIT,
            size_rest(s@, i as int, acc as nat, weight as nat) == size_rest(s@, start as int, acc0 as nat, weight0 as nat),
            start <= i,
        decreases s@.len() - i,
    {
        let b = s[i];
        let low = (b % 128) as u64;
        assert(low * weight <= 127 * weight) by (nonlinear_arith)
            requires low <= 127;
        let acc2 = acc + low * weight;
        if b < 128 {
            return Some((acc2, i + 1));
        }
        if weight > SIZE_WEIGHT_LIMIT / 128 {
            return None;
        }
        acc = acc2;
        weight = weight * 128;
        i += 1;
    }
    None
}

fn read_ofs_distance(s: &[u8], start: usize) -> (r: Option<(u64, usize)>)
    ensures
        match r {
            None => ofs_distance(s@, start as int) is None,
            Some((d, e)) => ofs_distance(s@, start as int) == Some((d as nat, e as int)) && start < e <= s@.len(),
        },
{
    if start >= s.len() {
        return None;
    }
    let b0 = s[start];
    if b0 < 128 {
        return Some((b0 as u64, start + 1));
    }
    let mut v: u64 = (b0 % 128) as u64;
    let mut i = start + 1;
    while i < s.len()
        invariant
            ofs_rest(s@, i as int, v as nat) == ofs_distance(s@, start as int),
            start < i,
        decreases s@.len() - i,
    {
        let b = s[i];
        let low = (b % 128) as u64;
        if v > 0x01ff_ffff_ffff_fffe {
            assert((v + 1) * 128 + low > u64::MAX) by (nonlinear_arith)
                requires v > 0x01ff_ffff_ffff_fffe;
            return None;
        }
        assert((v + 1) * 128 + low <= u64::MAX) by (nonlinear_arith)
            requires v <= 0x01ff_ffff_ffff_fffe, low <= 127;
        let v2 = (v + 1) * 128 + low;
        if b < 128 {
            return Some((v2, i + 1));
        }
        v = v2;
        i += 1;
    }
    None
}

/// Read the header of the entry at `p`: what it holds, its inflated size, and where its data starts.
pub fn decode_entry_header(s: &[u8], p: usize) -> (r: Option<(EntryHeader, u64, usize)>)
    ensures
        match r {
            None => header_spec(s@, p as int) is None,
            Some((h, n, q)) => header_spec(s@, p as int) == Some((h@, n as nat, q as int)) && p < q <= s@.len()
                && n < 0x1000_0000_0000_0000,
        },
{
    let len = s.len();
    if p >= len {
        return None;
    }
    let b0 = s[p];
    let size = if b0 < 128 {
        Some(((b0 % 16) as u64, p + 1))
    } else {
        read_size_rest(s, p + 1, (b0 % 16) as u64, 16)
    };
    let (n, q) = match size {
        None => return None,
        Some(x) => x,
    };
    let t = (b0 / 16) % 8;
    assert(t == type_bits(b0));
    if t == 1 {
        Some((EntryHeader::Object(ObjectKind::Commit), n, q))
    } else if t == 2 {
        Some((EntryHeader::Object(ObjectKind::Tree), n, q))
    } else if t == 3 {
        Some((EntryHeader::Object(ObjectKind::Blob), n, q))
    } else if t == 4 {
        Some((EntryHeader::Object(ObjectKind::Tag), n, q))
    } else if t == 6 {
        match read_ofs_distance(s, q) {
            None => None,
            Some((d, r)) => Some((EntryHeader::OfsDelta { base_distance: d }, n, r)),
        }
    } else if t == 7 {
        if s.len() - q >= 20 {
            let mut id = [0u8; 20];
            let mut k: usize = 0;
            while k < 20
                invariant
                    q + 20 <= s@.len(),
                    len == s@.len(),
                    k <= 20,
                    forall|j: int| 0 <= j < k ==> id@[j] == s@[q + j],
                decreases 20 - k,
            {
                id[k] = s[q + k];
                k += 1;
            }
            assert(id@ =~= s@.subrange(q as int, q + 20));
            Some((EntryHeader::RefDelta { base_id: id }, n, q + 20))
        } else {
            None
        }
    } else {
        None
    }
}

/// Read the entry at `p`, inflating its data to learn where it ends.
pub fn decode_entry(s: &[u8], p: usize) -> (r: Result<(Entry, usize), DecodeError>)
    ensures
        match (r, entry_spec(s@, p as int)) {
            (Ok((e, q)), Ok((m, mq))) => e@ == m && q as int == mq && q <= s@.len(),
            (Err(e1), Err(e2)) => e1 == e2,
            _ => false,
        },
{
    let (header, n, q) = match decode_entry_header(s, p) {
        None => return Err(DecodeError::EntryHeader { offset: p as u64 }),
        Some(x) => x,
    };
    if n >= usize::MAX as u64 {
        return Err(DecodeError::Inflate { offset: p as u64 });
    }
    let data = vstd::slice::slice_subrange(s, q, s.len());
    match inflate_once(data, (n + 1) as usize) {
        Some((true, used_in, used_out, _)) if used_out as u64 == n => {
            let end = q + used_in;
            let crc = crc32(vstd::slice::slice_subrange(s, p, end));
            Ok((
                Entry {
                    header,
                    pack_offset: p as u64,
                    header_size: (q - p) as u64,
                    decompressed_size: n,
                    compressed_size: used_in as u64,
                    crc32: crc,
                },
                end,
            ))
        },
        _ => Err(DecodeError::Inflate { offset: p as u64 }),
    }
}

/// Read a whole pack held in memory: its header, every entry, and its trailing hash, which must be
/// the hash of all bytes before it.
pub fn decode_pack(s: &[u8]) -> (r: Result<DecodedPack, DecodeError>)
    ensures
        match (r, pack_spec(s@)) {
            (Ok(d), Ok((v, es, end, t))) => d.version == v && models(d.entries@) == es && d.pack_end as int == end
                && d.trailer@ == t,
            (Err(e1), Err(e2)) => e1 == e2,
            _ => false,
        },
{
    let len = s.len();
    let (version, count) = match decode_pack_header(s) {
        None => return Err(DecodeError::PackHeaderMismatch),
        Some(x) => x,
    };
    let mut entries: Vec<Entry> = Vec::new();
    let mut p: usize = 12;
    let mut k: u32 = 0;
    assert(models(entries@) =~= seq![]);
    while k < count
        invariant
            k <= count,
            p <= s@.len(),
            pack_header_spec(s@) == Some((version, count)),
            entries_spec(s@, 12, k as nat) == Ok::<(Seq<EntryModel>, int), DecodeError>((models(entries@), p as int)),
        decreases count - k,
    {
        let ghost before = entries@;
        match decode_entry(s, p) {
            Err(e) => {
                assert(entries_spec(s@, 12, (k + 1) as nat) == Err::<(Seq<EntryModel>, int), DecodeError>(e));
                proof {
                    lemma_pack_error(s@, version, count, (k + 1) as nat);
                }
                return Err(e);
            },
            Ok((e, q)) => {
                entries.push(e);
                p = q;
                assert(models(entries@) =~= models(before).push(e@));
            },
        }
        k += 1;
    }
    if s.len() - p < 20 {
        return Err(DecodeError::UnexpectedEnd);
    }
    let actual = sha1(vstd::slice::slice_subrange(s, 0, p));
    let mut trailer = [0u8; 20];
    let mut j: usize = 0;
    while j < 20
        invariant
            p + 20 <= s@.len(),
            len == s@.len(),
            j <= 20,
            forall|i: int| 0 <= i < j ==> trailer@[i] == s@[p + i],
        decreases 20 - j,
    {
        trailer[j] = s[p + j];
        j += 1;
    }
    assert(trailer@ =~= s@.subrange(p as int, p + 20));
    let mut same = true;
    j = 0;
    while j < 20
        invariant
            j <= 20,
            same <==> forall|i: int| 0 <= i < j ==> actual@[i] == trailer@[i],
        decreases 20 - j,
    {
        if actual[j] != trailer[j] {
            same = false;
        }
        j += 1;
    }
    if !same {
        assert(actual@ != trailer@) by {
            let i = choose|i: int| 0 <= i < 20 && actual@[i] != trailer@[i];
        }
        return Err(DecodeError::PackChecksumMismatch);
    }
    assert(actual@ =~= trailer@);
    Ok(DecodedPack { version, entries, pack_end: p as u64, trailer })
}

} // verus!
