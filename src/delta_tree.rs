use vstd::prelude::*;

use crate::pack_data::{Entry, EntryHeader};

verus! {

/// The largest number of deltas between an object and its base object.
pub const MAX_CHAIN_LENGTH: u16 = 0xffff;

/// Why the entries of a pack do not form a tree of deltas.
#[derive(Debug, Clone, Copy, PartialEq, Eq, Structural)]
pub enum TreeError {
    /// The base of the delta at `offset` is not an entry of the pack.
    MissingBase { offset: u64 },
    /// The delta at `offset` names a base that does not come before it.
    OutOfOrderDelta { offset: u64 },
    /// The delta at `offset` ends a chain of more than `MAX_CHAIN_LENGTH` deltas.
    ChainTooDeep { offset: u64 },
}

/// One entry of the pack with its place in the tree.
#[derive(Debug, Clone, Copy)]
pub struct Node {
    pub entry: Entry,
    /// The node of the base, for a delta.
    pub parent: Option<usize>,
    /// How many deltas lie between this entry and its root.
    pub level: u16,
}

/// The entries of a pack, in pack order, each delta pointing to its base.
pub struct Tree {
    pub nodes: Vec<Node>,
    /// The nodes that are not deltas, ascending.
    pub roots: Vec<usize>,
    /// Where the last entry ends.
    pub pack_end: u64,
}

/// Pack offsets strictly ascend.
pub open spec fn offsets_ascend(es: Seq<Entry>) -> bool {
    forall|i: int, j: int| 0 <= i < j < es.len() ==> es[i].pack_offset < es[j].pack_offset
}

/// How many of the first `n` entries are deltas by id.
pub open spec fn ref_count(es: Seq<Entry>, n: int) -> nat
    decreases n,
{
    if n <= 0 || n > es.len() {
        0
    } else {
        ref_count(es, n - 1) + if es[n - 1].header is RefDelta { 1nat } else { 0nat }
    }
}

proof fn lemma_ref_count_bounded(es: Seq<Entry>, n: int)
    ensures
        ref_count(es, n) <= if n < 0 { 0 } else { n },
    decreases n,
{
    if 0 < n <= es.len() {
        lemma_ref_count_bounded(es, n - 1);
    }
}

/// A delta by id's parent is the entry at the offset the lookup answered.
pub open spec fn ref_parent_agrees(es: Seq<Entry>, answers: Seq<Option<u64>>, nodes: Seq<Node>, k: int) -> bool {
    match nodes[k].parent {
        Some(j) => es[k].header is RefDelta ==> ref_answer(es, answers, k) == Some(nodes[j as int].entry.pack_offset),
        None => true,
    }
}

/// What the id-to-offset lookup answered for the delta by id at `i`: answers come one per delta
/// by id, in pack order; a missing answer means the id was not found.
pub open spec fn ref_answer(es: Seq<Entry>, answers: Seq<Option<u64>>, i: int) -> Option<u64> {
    let r = ref_count(es, i) as int;
    if r < answers.len() {
        answers[r]
    } else {
        None
    }
}

/// Where the base of the entry at `i` starts: none for a whole object; the offset the distance
/// points to for an offset delta; the offset the lookup gave for a delta by id. A base that does
/// not come before the entry is out of order.
pub open spec fn base_offset_spec(es: Seq<Entry>, answers: Seq<Option<u64>>, i: int) -> Result<Option<int>, TreeError> {
    let e = es[i];
    match e.header {
        EntryHeader::Object(_) => Ok(None),
        EntryHeader::OfsDelta { base_distance } => if base_distance == 0 {
            Err(TreeError::OutOfOrderDelta { offset: e.pack_offset })
        } else if base_distance > e.pack_offset {
            Err(TreeError::MissingBase { offset: e.pack_offset })
        } else {
            Ok(Some(e.pack_offset - base_distance))
        },
        EntryHeader::RefDelta { .. } => match ref_answer(es, answers, i) {
            None => Err(TreeError::MissingBase { offset: e.pack_offset }),
            Some(o) => if o >= e.pack_offset {
                Err(TreeError::OutOfOrderDelta { offset: e.pack_offset })
            } else {
                Ok(Some(o as int))
            },
        },
    }
}

/// Where the entry at `i`, placed among the nodes before it, goes: its parent and its level.
pub open spec fn place_spec(es: Seq<Entry>, answers: Seq<Option<u64>>, placed: Seq<(Option<int>, nat)>, i: int) -> Result<
    (Option<int>, nat),
    TreeError,
> {
    let e = es[i];
    match base_offset_spec(es, answers, i) {
        Err(err) => Err(err),
        Ok(None) => Ok((None, 0)),
        Ok(Some(b)) => if !(exists|j: int| 0 <= j < i && es[j].pack_offset == b) {
            Err(TreeError::MissingBase { offset: e.pack_offset })
        } else {
            let j = choose|j: int| 0 <= j < i && es[j].pack_offset == b;
            if placed[j].1 >= MAX_CHAIN_LENGTH {
                Err(TreeError::ChainTooDeep { offset: e.pack_offset })
            } else {
                Ok((Some(j), placed[j].1 + 1))
            }
        },
    }
}

/// The parents and levels of the first `n` entries, or the first entry that cannot be placed.
pub open spec fn tree_spec(es: Seq<Entry>, answers: Seq<Option<u64>>, n: nat) -> Result<Seq<(Option<int>, nat)>, TreeError>
    decreases n,
{
    if n == 0 {
        Ok(seq![])
    } else {
        match tree_spec(es, answers, (n - 1) as nat) {
            Err(e) => Err(e),
            Ok(placed) => match place_spec(es, answers, placed, n - 1) {
                Err(e) => Err(e),
                Ok(p) => Ok(placed.push(p)),
            },
        }
    }
}

/// The parent and level of each node.
pub open spec fn placement(nodes: Seq<Node>) -> Seq<(Option<int>, nat)> {
    nodes.map_values(
        |n: Node|
            (
                match n.parent {
                    Some(j) => Some(j as int),
                    None => None,
                },
                n.level as nat,
            ),
    )
}

/// A well-formed tree: every delta points to an earlier node, at a smaller pack offset, one
/// level below it; every other node is a root.
pub open spec fn tree_wf(nodes: Seq<Node>, roots: Seq<usize>) -> bool {
    &&& forall|i: int|
        0 <= i < nodes.len() ==> match #[trigger] nodes[i].parent {
            Some(j) => j < i && nodes[j as int].entry.pack_offset < nodes[i].entry.pack_offset && nodes[i].level
                == nodes[j as int].level + 1 && ((nodes[i].entry.header matches EntryHeader::OfsDelta { base_distance }
                && nodes[j as int].entry.pack_offset + base_distance == nodes[i].entry.pack_offset)
                || nodes[i].entry.header is RefDelta),
            None => nodes[i].level == 0 && nodes[i].entry.header is Object,
        }
    &&& forall|k: int| 0 <= k < roots.len() ==> roots[k] < nodes.len() && nodes[roots[k] as int].parent is None
    &&& forall|k: int, l: int| 0 <= k < l < roots.len() ==> roots[k] < roots[l]
    &&& forall|i: int| 0 <= i < nodes.len() && nodes[i].parent is None ==> roots.contains(i as usize)
}

proof fn lemma_tree_error_stays(es: Seq<Entry>, answers: Seq<Option<u64>>, n: nat, m: nat)
    requires
        n <= m,
        tree_spec(es, answers, n) is Err,
    ensures
        tree_spec(es, answers, m) == tree_spec(es, answers, n),
    decreases m - n,
{
    if n < m {
        lemma_tree_error_stays(es, answers, n, (m - 1) as nat);
    }
}

/// The node among the first `end` whose entry starts at `offset`, by binary search.
fn find_offset(nodes: &Vec<Node>, end: usize, offset: u64) -> (r: Option<usize>)
    requires
        end <= nodes@.len(),
        forall|i: int, j: int| 0 <= i < j < end ==> nodes@[i].entry.pack_offset < nodes@[j].entry.pack_offset,
    ensures
        match r {
            Some(j) => j < end && nodes@[j as int].entry.pack_offset == offset,
            None => forall|j: int| 0 <= j < end ==> nodes@[j].entry.pack_offset != offset,
        },
{
    let mut lo: usize = 0;
    let mut hi: usize = end;
    while lo < hi
        invariant
            lo <= hi <= end,
            end <= nodes@.len(),
            forall|i: int, j: int| 0 <= i < j < end ==> nodes@[i].entry.pack_offset < nodes@[j].entry.pack_offset,
            forall|j: int| 0 <= j < lo ==> nodes@[j].entry.pack_offset < offset,
            forall|j: int| hi <= j < end ==> nodes@[j].entry.pack_offset > offset,
        decreases hi - lo,
    {
        let mid = lo + (hi - lo) / 2;
        let o = nodes[mid].entry.pack_offset;
        if o == offset {
            return Some(mid);
        } else if o < offset {
            lo = mid + 1;
        } else {
            hi = mid;
        }
    }
    None
}

/// Place every entry of a pack, given in pack order, into a tree of deltas: an offset delta's
/// parent is the entry its base distance points to; a delta by id's parent is the entry at the
/// offset that the id-to-offset lookup gave for its base (`ref_bases`, one answer per delta by id,
/// in pack order). Fails on the first delta whose base is not an entry of the pack, whose base
/// does not come before it, or whose chain grows too long.
pub fn build_tree(entries: &Vec<Entry>, pack_end: u64, ref_bases: &Vec<Option<u64>>) -> (r: Result<Tree, TreeError>)
    requires
        offsets_ascend(entries@),
    ensures
        match (r, tree_spec(entries@, ref_bases@, entries@.len())) {
            (Ok(t), Ok(placed)) => placement(t.nodes@) == placed && t.nodes@.len() == entries@.len() && (forall|i: int|
                0 <= i < entries@.len() ==> #[trigger] t.nodes@[i].entry == entries@[i]) && tree_wf(t.nodes@, t.roots@)
                && t.pack_end == pack_end && forall|i: int|
                0 <= i < entries@.len() ==> #[trigger] ref_parent_agrees(entries@, ref_bases@, t.nodes@, i),
            (Err(e1), Err(e2)) => e1 == e2,
            _ => false,
        },
{
    let n = entries.len();
    let mut nodes: Vec<Node> = Vec::new();
    let mut roots: Vec<usize> = Vec::new();
    let mut i: usize = 0;
    let mut refs_seen: usize = 0;
    assert(placement(nodes@) =~= seq![]);
    while i < n
        invariant
            i <= n,
            n == entries@.len(),
            offsets_ascend(entries@),
            nodes@.len() == i,
            forall|k: int| 0 <= k < i ==> #[trigger] nodes@[k].entry == entries@[k],
            tree_spec(entries@, ref_bases@, i as nat) == Ok::<Seq<(Option<int>, nat)>, TreeError>(placement(nodes@)),
            tree_wf(nodes@, roots@),
            refs_seen == ref_count(entries@, i as int),
            forall|k: int| 0 <= k < i ==> #[trigger] ref_parent_agrees(entries@, ref_bases@, nodes@, k),
            forall|k: int| 0 <= k < roots@.len() ==> roots@[k] < i,
        decreases n - i,
    {
        let e = entries[i];
        let ghost placed = placement(nodes@);
        let ghost before = nodes@;
        let ghost old_roots = roots@;
        let base: Option<u64> = match e.header {
            EntryHeader::Object(_) => None,
            EntryHeader::OfsDelta { base_distance } => {
                if base_distance == 0 {
                    proof { lemma_tree_error_stays(entries@, ref_bases@, (i + 1) as nat, n as nat); }
                    return Err(TreeError::OutOfOrderDelta { offset: e.pack_offset });
                }
                if base_distance > e.pack_offset {
                    proof { lemma_tree_error_stays(entries@, ref_bases@, (i + 1) as nat, n as nat); }
                    return Err(TreeError::MissingBase { offset: e.pack_offset });
                }
                Some(e.pack_offset - base_distance)
            },
            EntryHeader::RefDelta { .. } => {
                let answer = if refs_seen < ref_bases.len() { ref_bases[refs_seen] } else { None };
                match answer {
                    None => {
                        proof { lemma_tree_error_stays(entries@, ref_bases@, (i + 1) as nat, n as nat); }
                        return Err(TreeError::MissingBase { offset: e.pack_offset });
                    },
                    Some(o) => {
                        if o >= e.pack_offset {
                            proof { lemma_tree_error_stays(entries@, ref_bases@, (i + 1) as nat, n as nat); }
                            return Err(TreeError::OutOfOrderDelta { offset: e.pack_offset });
                        }
                        Some(o)
                    },
                }
            },
        };
        assert(base_offset_spec(entries@, ref_bases@, i as int) == Ok::<Option<int>, TreeError>(
            match base {
                Some(b) => Some(b as int),
                None => None,
            },
        ));
        let parent: Option<usize>;
        let level: u16;
        match base {
            None => {
                parent = None;
                level = 0;
            },
            Some(b) => {
                match find_offset(&nodes, i, b) {
                    None => {
                        assert(!(exists|j: int| 0 <= j < i && entries@[j].pack_offset == b));
                        proof { lemma_tree_error_stays(entries@, ref_bases@, (i + 1) as nat, n as nat); }
                        return Err(TreeError::MissingBase { offset: e.pack_offset });
                    },
                    Some(j) => {
                        let ghost c = choose|j: int| 0 <= j < i && entries@[j].pack_offset == b;
                        assert(c == j as int) by {
                            if c < j as int {
                                assert(entries@[c].pack_offset < entries@[j as int].pack_offset);
                            } else if c > j as int {
                                assert(entries@[j as int].pack_offset < entries@[c].pack_offset);
                            }
                        }
                        let parent_level = nodes[j].level;
                        if parent_level >= MAX_CHAIN_LENGTH {
                            proof { lemma_tree_error_stays(entries@, ref_bases@, (i + 1) as nat, n as nat); }
                            return Err(TreeError::ChainTooDeep { offset: e.pack_offset });
                        }
                        parent = Some(j);
                        level = parent_level + 1;
                    },
                }
            },
        }
        nodes.push(Node { entry: e, parent, level });
        if parent.is_none() {
            roots.push(i);
        }
        proof {
            assert(placement(nodes@) =~= placed.push(
                (
                    match parent {
                        Some(j) => Some(j as int),
                        None => None,
                    },
                    level as nat,
                ),
            ));
            assert(nodes@[i as int] == Node { entry: e, parent, level });
            assert forall|k: int| 0 <= k < i implies nodes@[k] == before[k] by {}
            assert forall|k: int| 0 <= k < old_roots.len() implies roots@[k] == old_roots[k] by {}
            assert forall|x: int| 0 <= x < nodes@.len() && nodes@[x].parent is None implies roots@.contains(
                x as usize,
            ) by {
                if x < i {
                    assert(old_roots.contains(x as usize));
                    let k = choose|k: int| 0 <= k < old_roots.len() && old_roots[k] == x as usize;
                    assert(roots@[k] == x as usize);
                } else {
                    assert(roots@[roots@.len() - 1] == i);
                }
            }
            assert forall|x: int| 0 <= x < nodes@.len() implies match #[trigger] nodes@[x].parent {
                Some(j) => j < x && nodes@[j as int].entry.pack_offset < nodes@[x].entry.pack_offset && nodes@[x].level
                    == nodes@[j as int].level + 1 && ((nodes@[x].entry.header matches EntryHeader::OfsDelta { base_distance }
                    && nodes@[j as int].entry.pack_offset + base_distance == nodes@[x].entry.pack_offset)
                    || nodes@[x].entry.header is RefDelta),
                None => nodes@[x].level == 0 && nodes@[x].entry.header is Object,
            } by {
                if x < i {
                    assert(nodes@[x] == before[x]);
                    match before[x].parent {
                        Some(j) => {
                            assert(nodes@[j as int] == before[j as int]);
                        },
                        None => {},
                    }
                } else {
                    match parent {
                        Some(j) => {
                            assert(nodes@[j as int] == before[j as int]);
                            assert(entries@[j as int].pack_offset < entries@[i as int].pack_offset);
                        },
                        None => {},
                    }
                }
            }
        }
        proof {
            assert forall|k: int| 0 <= k < i + 1 implies #[trigger] ref_parent_agrees(entries@, ref_bases@, nodes@, k) by {
                if k < i {
                    assert(nodes@[k] == before[k]);
                    assert(ref_parent_agrees(entries@, ref_bases@, before, k));
                    match nodes@[k].parent {
                        Some(j) => {
                            assert(nodes@[j as int] == before[j as int]);
                        },
                        None => {},
                    }
                } else {
                    match nodes@[k].parent {
                        Some(j) => {
                            assert(nodes@[j as int] == before[j as int]);
                        },
                        None => {},
                    }
                }
            }
            assert(ref_count(entries@, i + 1) == ref_count(entries@, i as int) + if entries@[i as int].header is RefDelta {
                1nat
            } else {
                0nat
            });
            assert(ref_count(entries@, i as int) <= i) by {
                lemma_ref_count_bounded(entries@, i as int);
            }
        }
        if let EntryHeader::RefDelta { .. } = e.header {
            refs_seen = refs_seen + 1;
        }
        i += 1;
    }
    Ok(Tree { nodes, roots, pack_end })
}

/// In a well-formed tree every delta comes after its base in the pack, one level deeper.
pub proof fn delta_follows_its_base(nodes: Seq<Node>, roots: Seq<usize>, i: int)
    requires
        tree_wf(nodes, roots),
        0 <= i < nodes.len(),
        nodes[i].parent is Some,
    ensures
        nodes[nodes[i].parent->Some_0 as int].entry.pack_offset < nodes[i].entry.pack_offset,
        nodes[i].level == nodes[nodes[i].parent->Some_0 as int].level + 1,
{
}

} // verus!
