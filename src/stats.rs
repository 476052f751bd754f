use vstd::prelude::*;

use crate::pack_data::ObjectKind;
use crate::traverse::ObjectInfo;

verus! {

/// Averages over all objects, rounded down; zero for a pack without objects.
#[derive(Debug, Clone, Copy, PartialEq, Eq, Structural)]
pub struct AverageStatistics {
    pub decompressed_size: u128,
    pub compressed_size: u128,
    pub object_size: u128,
    pub num_deltas: u64,
}

/// What indexing a pack found.
#[derive(Debug, PartialEq, Eq)]
pub struct Statistics {
    pub average: AverageStatistics,
    /// Entry `l` counts the objects at the end of a chain of `l` deltas.
    pub objects_per_chain_length: Vec<u32>,
    pub total_compressed_entries_size: u128,
    pub total_decompressed_entries_size: u128,
    pub total_object_size: u128,
    pub num_commits: u32,
    pub num_trees: u32,
    pub num_blobs: u32,
    pub num_tags: u32,
}

/// The sum of the compressed sizes.
pub open spec fn sum_compressed(s: Seq<ObjectInfo>) -> nat
    decreases s.len(),
{
    if s.len() == 0 { 0 } else { sum_compressed(s.drop_last()) + s.last().compressed_size as nat }
}

/// The sum of the decompressed sizes.
pub open spec fn sum_decompressed(s: Seq<ObjectInfo>) -> nat
    decreases s.len(),
{
    if s.len() == 0 { 0 } else { sum_decompressed(s.drop_last()) + s.last().decompressed_size as nat }
}

/// The sum of the object sizes.
pub open spec fn sum_object(s: Seq<ObjectInfo>) -> nat
    decreases s.len(),
{
    if s.len() == 0 { 0 } else { sum_object(s.drop_last()) + s.last().object_size as nat }
}

/// The sum of the chain lengths.
pub open spec fn sum_levels(s: Seq<ObjectInfo>) -> nat
    decreases s.len(),
{
    if s.len() == 0 { 0 } else { sum_levels(s.drop_last()) + s.last().level as nat }
}

/// How many objects are at the end of a chain of `l` deltas.
pub open spec fn count_level(s: Seq<ObjectInfo>, l: int) -> nat
    decreases s.len(),
{
    if s.len() == 0 { 0 } else { count_level(s.drop_last(), l) + if s.last().level == l { 1nat } else { 0nat } }
}

/// How many objects are of kind `k`.
pub open spec fn count_kind(s: Seq<ObjectInfo>, k: ObjectKind) -> nat
    decreases s.len(),
{
    if s.len() == 0 { 0 } else { count_kind(s.drop_last(), k) + if s.last().kind == k { 1nat } else { 0nat } }
}

/// One more than the longest chain, zero without objects.
pub open spec fn chain_slots(s: Seq<ObjectInfo>) -> nat
    decreases s.len(),
{
    if s.len() == 0 {
        0
    } else {
        let rest = chain_slots(s.drop_last());
        if s.last().level + 1 > rest { (s.last().level + 1) as nat } else { rest }
    }
}

/// The sum of the counts.
pub open spec fn sum_counts(s: Seq<u32>) -> nat
    decreases s.len(),
{
    if s.len() == 0 { 0 } else { sum_counts(s.drop_last()) + s.last() as nat }
}

proof fn lemma_sum_update(s: Seq<u32>, l: int, v: u32)
    requires
        0 <= l < s.len(),
    ensures
        sum_counts(s.update(l, v)) + s[l] == sum_counts(s) + v,
    decreases s.len(),
{
    let t = s.update(l, v);
    if l < s.len() - 1 {
        lemma_sum_update(s.drop_last(), l, v);
        assert(t.drop_last() =~= s.drop_last().update(l, v));
    } else {
        assert(t.drop_last() =~= s.drop_last());
    }
}

/// `total` divided by `n`, or zero when there is nothing to divide among.
pub open spec fn average_of(total: nat, n: nat) -> nat {
    if n == 0 { 0 } else { total / n }
}

proof fn lemma_counts_bounded(s: Seq<ObjectInfo>, l: int, k: ObjectKind)
    ensures
        count_level(s, l) <= s.len(),
        count_kind(s, k) <= s.len(),
        sum_levels(s) <= s.len() * 0xffff,
        sum_compressed(s) <= s.len() * 0xffff_ffff_ffff_ffff,
        sum_decompressed(s) <= s.len() * 0xffff_ffff_ffff_ffff,
        sum_object(s) <= s.len() * 0xffff_ffff_ffff_ffff,
        chain_slots(s) <= 0x1_0000,
        forall|x: int| 0 <= x < s.len() ==> s[x].level < chain_slots(s),
    decreases s.len(),
{
    if s.len() > 0 {
        lemma_counts_bounded(s.drop_last(), l, k);
        assert forall|x: int| 0 <= x < s.len() implies s[x].level < chain_slots(s) by {
            if x < s.len() - 1 {
                assert(s[x] == s.drop_last()[x]);
            }
        }
    }
}

/// Sum up sizes, chain lengths and kinds over all objects of a pack, and average them.
pub fn digest_statistics(objects: &Vec<ObjectInfo>) -> (r: Statistics)
    requires
        objects@.len() <= u32::MAX,
    ensures
        r.total_compressed_entries_size == sum_compressed(objects@),
        r.total_decompressed_entries_size == sum_decompressed(objects@),
        r.total_object_size == sum_object(objects@),
        r.objects_per_chain_length@.len() == chain_slots(objects@),
        forall|l: int| 0 <= l < r.objects_per_chain_length@.len() ==> r.objects_per_chain_length@[l] == count_level(objects@, l),
        sum_counts(r.objects_per_chain_length@) == objects@.len(),
        r.num_commits == count_kind(objects@, ObjectKind::Commit),
        r.num_trees == count_kind(objects@, ObjectKind::Tree),
        r.num_blobs == count_kind(objects@, ObjectKind::Blob),
        r.num_tags == count_kind(objects@, ObjectKind::Tag),
        r.average.compressed_size == average_of(sum_compressed(objects@), objects@.len()),
        r.average.decompressed_size == average_of(sum_decompressed(objects@), objects@.len()),
        r.average.object_size == average_of(sum_object(objects@), objects@.len()),
        r.average.num_deltas == average_of(sum_levels(objects@), objects@.len()),
{
    let n = objects.len();
    let mut compressed: u128 = 0;
    let mut decompressed: u128 = 0;
    let mut object: u128 = 0;
    let mut levels: u64 = 0;
    let mut hist: Vec<u32> = Vec::new();
    let mut commits: u32 = 0;
    let mut trees: u32 = 0;
    let mut blobs: u32 = 0;
    let mut tags: u32 = 0;
    let mut i: usize = 0;
    while i < n
        invariant
            i <= n,
            n == objects@.len(),
            n <= u32::MAX,
            compressed == sum_compressed(objects@.subrange(0, i as int)),
            decompressed == sum_decompressed(objects@.subrange(0, i as int)),
            object == sum_object(objects@.subrange(0, i as int)),
            levels == sum_levels(objects@.subrange(0, i as int)),
            commits == count_kind(objects@.subrange(0, i as int), ObjectKind::Commit),
            trees == count_kind(objects@.subrange(0, i as int), ObjectKind::Tree),
            blobs == count_kind(objects@.subrange(0, i as int), ObjectKind::Blob),
            tags == count_kind(objects@.subrange(0, i as int), ObjectKind::Tag),
            hist@.len() == chain_slots(objects@.subrange(0, i as int)),
            forall|l: int| 0 <= l < hist@.len() ==> hist@[l] == count_level(objects@.subrange(0, i as int), l),
            sum_counts(hist@) == i,
        decreases n - i,
    {
        let ghost prev = objects@.subrange(0, i as int);
        let ghost next = objects@.subrange(0, i as int + 1);
        assert(next.drop_last() =~= prev);
        let o = objects[i];
        proof {
            lemma_counts_bounded(prev, 0, o.kind);
            lemma_counts_bounded(next, o.level as int, o.kind);
            assert(prev.len() * 0xffff_ffff_ffff_ffff <= 0xffff_ffff * 0xffff_ffff_ffff_ffffnat) by (nonlinear_arith)
                requires prev.len() <= 0xffff_ffff;
        }
        compressed = compressed + o.compressed_size as u128;
        decompressed = decompressed + o.decompressed_size as u128;
        object = object + o.object_size as u128;
        levels = levels + o.level as u64;
        match o.kind {
            ObjectKind::Commit => commits = commits + 1,
            ObjectKind::Tree => trees = trees + 1,
            ObjectKind::Blob => blobs = blobs + 1,
            ObjectKind::Tag => tags = tags + 1,
        }
        let level = o.level as usize;
        while hist.len() <= level
            invariant
                level < 0x1_0000,
                level == o.level,
                chain_slots(prev) <= hist@.len(),
                sum_counts(hist@) == i,
                hist@.len() <= chain_slots(prev) || hist@.len() <= level + 1,
                forall|l: int| 0 <= l < hist@.len() ==> hist@[l] == if l < chain_slots(prev) {
                    count_level(prev, l)
                } else {
                    0u32 as nat
                },
            decreases level + 1 - hist@.len(),
        {
            let ghost before_push = hist@;
            hist.push(0);
            assert(hist@.drop_last() =~= before_push);
        }
        proof {
            assert(count_level(prev, level as int) <= prev.len());
            assert(hist@.len() == chain_slots(next));
        }
        let c = hist[level];
        let ghost before_set = hist@;
        hist.set(level, c + 1);
        proof {
            lemma_sum_update(before_set, level as int, (c + 1) as u32);
        }
        proof {
            assert forall|l: int| 0 <= l < hist@.len() implies hist@[l] == count_level(next, l) by {
                if l >= chain_slots(prev) {
                    assert(count_level(prev, l) == 0) by {
                        lemma_level_absent(prev, l);
                    }
                }
            }
        }
        i += 1;
    }
    assert(objects@.subrange(0, n as int) =~= objects@);
    let average = if n == 0 {
        AverageStatistics { decompressed_size: 0, compressed_size: 0, object_size: 0, num_deltas: 0 }
    } else {
        AverageStatistics {
            decompressed_size: decompressed / n as u128,
            compressed_size: compressed / n as u128,
            object_size: object / n as u128,
            num_deltas: levels / n as u64,
        }
    };
    Statistics {
        average,
        objects_per_chain_length: hist,
        total_compressed_entries_size: compressed,
        total_decompressed_entries_size: decompressed,
        total_object_size: object,
        num_commits: commits,
        num_trees: trees,
        num_blobs: blobs,
        num_tags: tags,
    }
}

proof fn lemma_level_absent(s: Seq<ObjectInfo>, l: int)
    requires
        l >= chain_slots(s),
    ensures
        count_level(s, l) == 0,
    decreases s.len(),
{
    if s.len() > 0 {
        lemma_level_absent(s.drop_last(), l);
    }
}

} // verus!
