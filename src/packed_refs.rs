use vstd::prelude::*;

verus! {

/// One reference of a packed-refs file.
pub struct PackedRef {
    pub name: Vec<u8>,
    pub target: [u8; 20],
}

/// The references of a packed-refs file, sorted by name.
pub struct Buffer {
    pub refs: Vec<PackedRef>,
}

/// What an edit does to a reference.
pub enum Change {
    Delete,
    Update { new: [u8; 20] },
}

/// A change to the reference `name`.
pub struct RefEdit {
    pub name: Vec<u8>,
    pub change: Change,
}

/// The state of the lock that guards the packed-refs file.
#[derive(Debug, Clone, Copy, PartialEq, Eq, Structural)]
pub enum LockState {
    /// Held, so that the file can be rewritten.
    Held,
    /// Given up without writing, as nothing is left to change.
    Closed,
}

/// A transaction on the packed-refs file.
pub struct Transaction {
    pub buffer: Option<Buffer>,
    pub edits: Option<Vec<RefEdit>>,
    pub lock: LockState,
}

/// A sealed marker: only types of this library implement it.
pub trait Sealed {}

/// The names of the references of a buffer.
pub open spec fn names(b: Buffer) -> Seq<Seq<u8>> {
    b.refs@.map_values(|r: PackedRef| r.name@)
}

/// An edit stays in the transaction unless it deletes a reference that the buffer does not hold.
pub open spec fn keeps(buffer: Option<Buffer>, e: RefEdit) -> bool {
    match (e.change, buffer) {
        (Change::Delete, Some(b)) => names(b).contains(e.name@),
        _ => true,
    }
}

/// The edits that stay, in their order.
pub open spec fn retained(buffer: Option<Buffer>, es: Seq<RefEdit>) -> Seq<RefEdit>
    decreases es.len(),
{
    if es.len() == 0 {
        seq![]
    } else {
        (if keeps(buffer, es[0]) { seq![es[0]] } else { seq![] }) + retained(buffer, es.drop_first())
    }
}

impl Buffer {
    /// Whether a reference named `name` is in the buffer.
    pub fn find_existing(&self, name: &[u8]) -> (r: bool)
        ensures
            r == names(*self).contains(name@),
    {
        let mut i: usize = 0;
        while i < self.refs.len()
            invariant
                i <= self.refs@.len(),
                forall|j: int| 0 <= j < i ==> self.refs@[j].name@ != name@,
            decreases self.refs@.len() - i,
        {
            if crate::bytes::bytes_equal(self.refs[i].name.as_slice(), name) {
                assert(names(*self)[i as int] == name@);
                return true;
            }
            i += 1;
        }
        assert(!names(*self).contains(name@)) by {
            if names(*self).contains(name@) {
                let j = choose|j: int| 0 <= j < names(*self).len() && names(*self)[j] == name@;
                assert(self.refs@[j].name@ == name@);
            }
        }
        false
    }
}

impl Transaction {
    /// A transaction that writes a new packed-refs file, under a held lock.
    pub fn new_empty() -> (r: Transaction)
        ensures
            r.buffer is None,
            r.edits is None,
            r.lock == LockState::Held,
    {
        Transaction { buffer: None, edits: None, lock: LockState::Held }
    }

    /// A transaction that rewrites the packed-refs file held in `buffer`, under a held lock.
    pub fn new_from_pack_and_lock(buffer: Buffer) -> (r: Transaction)
        ensures
            r.buffer == Some(buffer),
            r.edits is None,
            r.lock == LockState::Held,
    {
        Transaction { buffer: Some(buffer), edits: None, lock: LockState::Held }
    }

    /// The packed references this transaction starts from.
    pub fn buffer(&self) -> (r: Option<&Buffer>)
        ensures
            match (r, self.buffer) {
                (Some(b), Some(own)) => *b == own,
                (None, None) => true,
                _ => false,
            },
    {
        self.buffer.as_ref()
    }

    /// Take the edits, dropping the deletions of references that are not there. When none is
    /// left the lock is given up, as the file will not change.
    pub fn prepare(self, edits: Vec<RefEdit>) -> (r: Transaction)
        requires
            self.edits is None,
        ensures
            r.buffer == self.buffer,
            r.edits matches Some(es) && es@ == retained(self.buffer, edits@),
            r.lock == if retained(self.buffer, edits@).len() == 0 { LockState::Closed } else { self.lock },
    {
        let mut edits = edits;
        let ghost all = edits@;
        let mut kept: Vec<RefEdit> = Vec::new();
        let n = edits.len();
        let mut i = n;
        assert(all.subrange(n as int, n as int) =~= seq![]);
        while i > 0
            invariant
                i <= n,
                n == all.len(),
                edits@ == all.subrange(0, i as int),
                kept@ == retained(self.buffer, all.subrange(i as int, n as int)),
            decreases i,
        {
            let e = edits.pop().unwrap();
            assert(all.subrange(0, i as int).last() == all[i - 1]);
            assert(all.subrange(0, i as int - 1) =~= all.subrange(0, i as int).drop_last());
            i -= 1;
            assert(all.subrange(i as int, n as int).drop_first() =~= all.subrange(i as int + 1, n as int));
            assert(all.subrange(i as int, n as int)[0] == all[i as int]);
            let keep = match (&e.change, &self.buffer) {
                (Change::Delete, Some(b)) => b.find_existing(e.name.as_slice()),
                _ => true,
            };
            if keep {
                kept.insert(0, e);
                assert(kept@ =~= seq![all[i as int]] + retained(self.buffer, all.subrange(i as int + 1, n as int)));
            } else {
                assert(retained(self.buffer, all.subrange(i as int, n as int)) =~= retained(self.buffer, all.subrange(i as int + 1, n as int)));
            }
        }
        assert(all.subrange(0, n as int) =~= all);
        let lock = if kept.len() == 0 { LockState::Closed } else { self.lock };
        Transaction { buffer: self.buffer, edits: Some(kept), lock }
    }
}

} // verus!
