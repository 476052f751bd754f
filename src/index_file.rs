use vstd::prelude::*;

use crate::bytes::{be32, be64, push_all, push_be32, push_be64};
use crate::digest::{sha1, sha1_of};

verus! {

/// The signature that opens every index file.
pub const V2_SIGNATURE: [u8; 4] = [0xff, 0x74, 0x4f, 0x63];

/// Offsets above this value go to the table of 64-bit offsets.
pub const LARGE_OFFSET_THRESHOLD: u64 = 0x7fff_ffff;

/// The bit that marks a 32-bit offset slot as a reference into the 64-bit offset table.
pub const HIGH_BIT: u32 = 0x8000_0000;

/// The largest size an index written by this engine may have.
pub const MAX_INDEX_SIZE: u64 = 0xffff_ffff;

/// What the index records of one object of the pack.
#[derive(Debug, Clone, Copy, PartialEq, Eq)]
pub struct IndexEntry {
    pub id: [u8; 20],
    pub pack_offset: u64,
    pub crc32: u32,
}

/// Why an index could not be encoded.
#[derive(Debug, Clone, Copy, PartialEq, Eq, Structural)]
pub enum EncodeError {
    /// More than `u32::MAX` objects.
    TooManyObjects,
    /// The index would be larger than 4 GiB.
    CapacityExceeded,
}

/// `a` comes strictly before `b` in lexicographic byte order.
pub open spec fn id_less(a: Seq<u8>, b: Seq<u8>) -> bool {
    exists|k: int|
        0 <= k < a.len() && k < b.len() && a.subrange(0, k) == b.subrange(0, k) && a[k] < b[k]
}

/// No id of `es` is followed by a smaller one; the same object may appear more than once.
pub open spec fn sorted_by_id(es: Seq<IndexEntry>) -> bool {
    forall|i: int, j: int| 0 <= i < j < es.len() ==> !id_less(es[j].id@, es[i].id@)
}

/// The bytes ascend (not strictly).
pub open spec fn ascending(s: Seq<u8>) -> bool {
    forall|i: int, j: int| 0 <= i <= j < s.len() ==> s[i] <= s[j]
}

/// How many of the bytes of `s` are at most `b`.
pub open spec fn count_le(s: Seq<u8>, b: int) -> nat
    decreases s.len(),
{
    if s.len() == 0 {
        0
    } else {
        count_le(s.drop_last(), b) + if s.last() as int <= b { 1nat } else { 0nat }
    }
}

/// The first byte of each id.
pub open spec fn first_bytes(es: Seq<IndexEntry>) -> Seq<u8> {
    es.map_values(|e: IndexEntry| e.id@[0])
}

/// The fan-out table: entry `b` counts the objects whose id starts with a byte of at most `b`.
pub open spec fn fanout_of(first: Seq<u8>) -> Seq<u32> {
    Seq::new(256, |b: int| count_le(first, b) as u32)
}

/// The big-endian encoding of the first `n` values of `t`.
pub open spec fn be32_table(t: Seq<u32>, n: int) -> Seq<u8>
    decreases n,
{
    if n <= 0 {
        seq![]
    } else {
        be32_table(t, n - 1) + be32(t[n - 1])
    }
}

/// All ids, one after the other.
pub open spec fn ids_bytes(es: Seq<IndexEntry>) -> Seq<u8>
    decreases es.len(),
{
    if es.len() == 0 {
        seq![]
    } else {
        ids_bytes(es.drop_last()) + es.last().id@
    }
}

/// All CRC-32 values, big-endian.
pub open spec fn crc_bytes(es: Seq<IndexEntry>) -> Seq<u8>
    decreases es.len(),
{
    if es.len() == 0 {
        seq![]
    } else {
        crc_bytes(es.drop_last()) + be32(es.last().crc32)
    }
}

/// The offset does not fit into 31 bits.
pub open spec fn is_large(e: IndexEntry) -> bool {
    e.pack_offset > LARGE_OFFSET_THRESHOLD
}

/// How many entries of `es` need a 64-bit offset.
pub open spec fn large_count(es: Seq<IndexEntry>) -> nat
    decreases es.len(),
{
    if es.len() == 0 {
        0
    } else {
        large_count(es.drop_last()) + if is_large(es.last()) { 1nat } else { 0nat }
    }
}

/// The 32-bit offset slot of the last entry of `es`.
pub open spec fn small_slot(es: Seq<IndexEntry>) -> u32 {
    if is_large(es.last()) {
        (HIGH_BIT | (large_count(es.drop_last()) as u32)) as u32
    } else {
        es.last().pack_offset as u32
    }
}

/// The table of 32-bit offset slots.
pub open spec fn small_offsets(es: Seq<IndexEntry>) -> Seq<u8>
    decreases es.len(),
{
    if es.len() == 0 {
        seq![]
    } else {
        small_offsets(es.drop_last()) + be32(small_slot(es))
    }
}

/// The table of 64-bit offsets, in the order the slots refer to them.
pub open spec fn large_offsets(es: Seq<IndexEntry>) -> Seq<u8>
    decreases es.len(),
{
    if es.len() == 0 {
        seq![]
    } else {
        large_offsets(es.drop_last()) + if is_large(es.last()) { be64(es.last().pack_offset) } else { seq![] }
    }
}

/// Everything of a version 2 index up to, and not including, its own trailing hash.
pub open spec fn index_body(es: Seq<IndexEntry>, pack_hash: Seq<u8>) -> Seq<u8> {
    V2_SIGNATURE@ + be32(2) + be32_table(fanout_of(first_bytes(es)), 256) + ids_bytes(es) + crc_bytes(es)
        + small_offsets(es) + large_offsets(es) + pack_hash
}

/// The size of a version 2 index of `n` objects, `large` of which need a 64-bit offset.
pub open spec fn index_size(n: int, large: int) -> int {
    8 + 1024 + 28 * n + 8 * large + 40
}

/// The whole index file: the body and its digest.
pub open spec fn index_file(es: Seq<IndexEntry>, pack_hash: Seq<u8>) -> Seq<u8> {
    index_body(es, pack_hash) + sha1_of(index_body(es, pack_hash))
}

proof fn lemma_count_le_split(s: Seq<u8>, b: int, k: int)
    requires
        0 <= k <= s.len(),
        forall|i: int| 0 <= i < k ==> s[i] as int <= b,
        forall|i: int| k <= i < s.len() ==> s[i] as int > b,
    ensures
        count_le(s, b) == k,
    decreases s.len(),
{
    if s.len() > 0 {
        if k == s.len() {
            lemma_count_le_split(s.drop_last(), b, k - 1);
        } else {
            lemma_count_le_split(s.drop_last(), b, k);
        }
    }
}

/// In ascending bytes, counting those at most `b` finds the first one above `b`.
proof fn lemma_count_le_ascending(s: Seq<u8>, b: int, k: int)
    requires
        ascending(s),
        0 <= k <= s.len(),
        forall|i: int| 0 <= i < k ==> s[i] as int <= b,
        k < s.len() ==> s[k] as int > b,
    ensures
        count_le(s, b) == k,
{
    lemma_count_le_split(s, b, k);
}

proof fn lemma_count_le_bounded(s: Seq<u8>, b: int)
    ensures
        count_le(s, b) <= s.len(),
        b >= 255 ==> count_le(s, b) == s.len(),
    decreases s.len(),
{
    if s.len() > 0 {
        lemma_count_le_bounded(s.drop_last(), b);
    }
}

proof fn lemma_count_le_monotone(s: Seq<u8>, a: int, b: int)
    requires
        a <= b,
    ensures
        count_le(s, a) <= count_le(s, b),
    decreases s.len(),
{
    if s.len() > 0 {
        lemma_count_le_monotone(s.drop_last(), a, b);
    }
}

/// Ids in order have ascending first bytes.
proof fn lemma_sorted_first_bytes_ascend(es: Seq<IndexEntry>)
    requires
        sorted_by_id(es),
    ensures
        ascending(first_bytes(es)),
{
    assert forall|i: int, j: int| 0 <= i <= j < es.len() implies first_bytes(es)[i] <= first_bytes(es)[j] by {
        if i < j {
            let a = es[i].id@;
            let b = es[j].id@;
            assert(!id_less(b, a));
            if a[0] > b[0] {
                assert(b.subrange(0, 0) =~= a.subrange(0, 0));
                assert(id_less(b, a));
            }
        }
    }
}

proof fn lemma_large_count_bounded(es: Seq<IndexEntry>)
    ensures
        large_count(es) <= es.len(),
    decreases es.len(),
{
    if es.len() > 0 {
        lemma_large_count_bounded(es.drop_last());
    }
}

/// Two ids of equal length that differ are ordered one way or the other.
pub proof fn lemma_id_less_total(a: Seq<u8>, b: Seq<u8>)
    requires
        a.len() == b.len(),
        a != b,
    ensures
        id_less(a, b) || id_less(b, a),
{
    lemma_first_difference(a, b, 0);
    let k = choose|k: int| 0 <= k < a.len() && a[k] != b[k] && forall|j: int| 0 <= j < k ==> a[j] == b[j];
    if a[k] > b[k] {
        assert(b.subrange(0, k) =~= a.subrange(0, k));
        assert(id_less(b, a));
    }
    assert(a.subrange(0, k) =~= b.subrange(0, k));
}

proof fn lemma_first_difference(a: Seq<u8>, b: Seq<u8>, i: int)
    requires
        a.len() == b.len(),
        a != b,
        0 <= i <= a.len(),
        forall|j: int| 0 <= j < i ==> a[j] == b[j],
    ensures
        exists|k: int| 0 <= k < a.len() && a[k] != b[k] && forall|j: int| 0 <= j < k ==> a[j] == b[j],
    decreases a.len() - i,
{
    if i == a.len() {
        assert(a =~= b);
    } else if a[i] != b[i] {
    } else {
        lemma_first_difference(a, b, i + 1);
    }
}

/// The index of objects sorted by id: its fan-out table ends with the number of objects and
/// never decreases; objects with distinct ids appear in strictly ascending order; and the last
/// twenty bytes are the digest of everything before them.
pub proof fn index_layout_law(es: Seq<IndexEntry>, pack_hash: Seq<u8>)
    requires
        sorted_by_id(es),
        es.len() <= u32::MAX,
    ensures
        fanout_of(first_bytes(es))[255] == es.len(),
        forall|a: int, b: int| 0 <= a <= b < 256 ==> fanout_of(first_bytes(es))[a] <= fanout_of(first_bytes(es))[b],
        (forall|i: int, j: int| 0 <= i < j < es.len() ==> es[i].id != es[j].id) ==> forall|i: int, j: int|
            0 <= i < j < es.len() ==> id_less(es[i].id@, es[j].id@),
        index_file(es, pack_hash).subrange(0, index_body(es, pack_hash).len() as int) == index_body(es, pack_hash),
        index_file(es, pack_hash).subrange(index_body(es, pack_hash).len() as int, index_file(es, pack_hash).len() as int)
            == sha1_of(index_body(es, pack_hash)),
{
    let first = first_bytes(es);
    lemma_count_le_bounded(first, 255);
    assert forall|a: int, b: int| 0 <= a <= b < 256 implies fanout_of(first)[a] <= fanout_of(first)[b] by {
        lemma_count_le_monotone(first, a, b);
        lemma_count_le_bounded(first, b);
    }
    if forall|i: int, j: int| 0 <= i < j < es.len() ==> es[i].id != es[j].id {
        assert forall|i: int, j: int| 0 <= i < j < es.len() implies id_less(es[i].id@, es[j].id@) by {
            assert(es[i].id != es[j].id);
            assert(es[i].id@ != es[j].id@) by {
                if es[i].id@ == es[j].id@ {
                    assert(es[i].id =~= es[j].id);
                }
            }
            lemma_id_less_total(es[i].id@, es[j].id@);
        }
    }
    let body = index_body(es, pack_hash);
    assert(index_file(es, pack_hash).subrange(0, body.len() as int) =~= body);
    assert(index_file(es, pack_hash).subrange(body.len() as int, index_file(es, pack_hash).len() as int) =~= sha1_of(body));
}

/// The fan-out table of the first id bytes of objects sorted by id.
///
/// Entry `b` is the number of objects whose first byte is at most `b`.
pub fn fanout(first: &Vec<u8>) -> (r: Vec<u32>)
    requires
        ascending(first@),
        first@.len() <= u32::MAX,
    ensures
        r@ == fanout_of(first@),
{
    let n = first.len();
    let mut r: Vec<u32> = Vec::new();
    let mut k: usize = 0;
    let mut b: usize = 0;
    while b < 256
        invariant
            b <= 256,
            k <= n,
            n == first@.len(),
            n <= u32::MAX,
            ascending(first@),
            forall|i: int| 0 <= i < k ==> first@[i] as int <= b as int - 1,
            b < 256 && k < n ==> first@[k as int] as int > b as int - 1,
            r@.len() == b,
            forall|j: int| 0 <= j < b ==> r@[j] == count_le(first@, j) as u32,
        decreases 256 - b,
    {
        while k < n && first[k] as usize <= b
            invariant
                b < 256,
                k <= n,
                n == first@.len(),
                forall|i: int| 0 <= i < k ==> first@[i] as int <= b as int,
            decreases n - k,
        {
            k += 1;
        }
        proof {
            lemma_count_le_ascending(first@, b as int, k as int);
        }
        r.push(k as u32);
        b += 1;
        proof {
            if b < 256 && k < n {
                assert(first@[k as int] as int > b as int - 1);
            }
        }
    }
    assert(r@ =~= fanout_of(first@));
    r
}

/// Encode a version 2 index of `entries`, which are sorted by id, for the pack whose trailing hash
/// is `pack_hash`. Returns the index bytes and the index's own hash.
pub fn encode_index(entries: &Vec<IndexEntry>, pack_hash: &[u8; 20]) -> (r: Result<(Vec<u8>, [u8; 20]), EncodeError>)
    requires
        sorted_by_id(entries@),
    ensures
        entries@.len() > u32::MAX ==> r == Err::<(Vec<u8>, [u8; 20]), EncodeError>(EncodeError::TooManyObjects),
        entries@.len() <= u32::MAX && index_size(entries@.len() as int, large_count(entries@) as int) > MAX_INDEX_SIZE
            ==> r == Err::<(Vec<u8>, [u8; 20]), EncodeError>(EncodeError::CapacityExceeded),
        entries@.len() <= u32::MAX && index_size(entries@.len() as int, large_count(entries@) as int) <= MAX_INDEX_SIZE
            ==> (r matches Ok((bytes, hash)) && bytes@ == index_file(entries@, pack_hash@)
                && hash@ == sha1_of(index_body(entries@, pack_hash@))),
{
    let n = entries.len();
    if n > 0xffff_ffffusize {
        return Err(EncodeError::TooManyObjects);
    }
    // count the 64-bit offsets to know the final size up front
    let mut large: u64 = 0;
    let mut i: usize = 0;
    while i < n
        invariant
            i <= n,
            n == entries@.len(),
            large == large_count(entries@.subrange(0, i as int)),
            large <= i,
        decreases n - i,
    {
        assert(entries@.subrange(0, i as int + 1).drop_last() =~= entries@.subrange(0, i as int));
        if entries[i].pack_offset > LARGE_OFFSET_THRESHOLD {
            large += 1;
        }
        i += 1;
    }
    assert(entries@.subrange(0, n as int) =~= entries@);
    let size: u64 = 1072 + 28 * (n as u64) + 8 * large;
    if size > MAX_INDEX_SIZE {
        return Err(EncodeError::CapacityExceeded);
    }
    let es = Ghost(entries@);
    let mut out: Vec<u8> = Vec::new();
    push_all(&mut out, &V2_SIGNATURE);
    push_be32(&mut out, 2);
    let ghost head = out@;
    assert(head =~= V2_SIGNATURE@ + be32(2));

    // fan-out
    let mut first: Vec<u8> = Vec::new();
    i = 0;
    while i < n
        invariant
            i <= n,
            n == entries@.len(),
            first@ =~= first_bytes(entries@).subrange(0, i as int),
        decreases n - i,
    {
        first.push(entries[i].id[0]);
        i += 1;
    }
    assert(first@ =~= first_bytes(entries@));
    proof {
        lemma_sorted_first_bytes_ascend(entries@);
    }
    let table = fanout(&first);
    let mut b: usize = 0;
    while b < 256
        invariant
            b <= 256,
            table@ == fanout_of(first_bytes(es@)),
            out@ == head + be32_table(table@, b as int),
        decreases 256 - b,
    {
        push_be32(&mut out, table[b]);
        b += 1;
    }
    let ghost after_fanout = out@;

    // ids
    i = 0;
    while i < n
        invariant
            i <= n,
            n == entries@.len(),
            out@ == after_fanout + ids_bytes(entries@.subrange(0, i as int)),
        decreases n - i,
    {
        assert(entries@.subrange(0, i as int + 1).drop_last() =~= entries@.subrange(0, i as int));
        push_all(&mut out, &entries[i].id);
        i += 1;
    }
    assert(entries@.subrange(0, n as int) =~= entries@);
    let ghost after_ids = out@;

    // crc32
    i = 0;
    while i < n
        invariant
            i <= n,
            n == entries@.len(),
            out@ == after_ids + crc_bytes(entries@.subrange(0, i as int)),
        decreases n - i,
    {
        assert(entries@.subrange(0, i as int + 1).drop_last() =~= entries@.subrange(0, i as int));
        push_be32(&mut out, entries[i].crc32);
        i += 1;
    }
    let ghost after_crc = out@;

    // 32-bit offset slots, then the 64-bit offsets they refer to
    let mut large_table: Vec<u8> = Vec::new();
    let mut k: u32 = 0;
    i = 0;
    while i < n
        invariant
            i <= n,
            n == entries@.len(),
            n <= u32::MAX,
            k == large_count(entries@.subrange(0, i as int)),
            k <= i,
            out@ == after_crc + small_offsets(entries@.subrange(0, i as int)),
            large_table@ == large_offsets(entries@.subrange(0, i as int)),
        decreases n - i,
    {
        let ghost prefix = entries@.subrange(0, i as int + 1);
        assert(prefix.drop_last() =~= entries@.subrange(0, i as int));
        assert(prefix.last() == entries@[i as int]);
        let e = entries[i];
        if e.pack_offset > LARGE_OFFSET_THRESHOLD {
            push_be32(&mut out, HIGH_BIT | k);
            push_be64(&mut large_table, e.pack_offset);
            k += 1;
        } else {
            push_be32(&mut out, e.pack_offset as u32);
        }
        i += 1;
    }
    push_all(&mut out, &large_table);
    push_all(&mut out, pack_hash);
    proof {
        assert(entries@.subrange(0, n as int) =~= entries@);
        assert(out@ =~= index_body(entries@, pack_hash@));
    }
    let hash = sha1(out.as_slice());
    push_all(&mut out, &hash);
    Ok((out, hash))
}

} // verus!
