use vstd::prelude::*;

verus! {

/// The largest number of bytes a pack or an index written by this engine may hold.
pub const MAX_WRITTEN: u64 = 0xffff_ffff;

/// A byte sink that keeps track of how many bytes went through it, as a 32-bit counter.
pub struct CountBytes {
    pub count: u32,
    pub inner: Vec<u8>,
}

/// Writing would take the counter past `u32::MAX`.
#[derive(Debug, Clone, Copy, PartialEq, Eq, Structural)]
pub struct CapacityExceeded;

impl CountBytes {
    /// Wrap `inner`, starting to count at zero.
    pub fn new(inner: Vec<u8>) -> (r: CountBytes)
        ensures
            r.count == 0,
            r.inner@ == inner@,
    {
        CountBytes { inner, count: 0 }
    }

    /// Append `buf`, or fail without writing anything when the total count would not fit in 32 bits.
    pub fn write(&mut self, buf: &[u8]) -> (r: Result<usize, CapacityExceeded>)
        ensures
            old(self).count as int + buf@.len() <= MAX_WRITTEN ==> {
                &&& r == Ok::<usize, CapacityExceeded>(buf@.len() as usize)
                &&& final(self).count == old(self).count + buf@.len()
                &&& final(self).inner@ == old(self).inner@ + buf@
            },
            old(self).count as int + buf@.len() > MAX_WRITTEN ==> {
                &&& r == Err::<usize, CapacityExceeded>(CapacityExceeded)
                &&& *final(self) == *old(self)
            },
    {
        let room: u32 = 0xffff_ffffu32 - self.count;
        if buf.len() > room as usize {
            return Err(CapacityExceeded);
        }
        let mut i: usize = 0;
        while i < buf.len()
            invariant
                i <= buf@.len(),
                self.inner@ == old(self).inner@ + buf@.subrange(0, i as int),
                self.count == old(self).count,
            decreases buf@.len() - i,
        {
            self.inner.push(buf[i]);
            i += 1;
            assert(buf@.subrange(0, i as int) == buf@.subrange(0, i as int - 1).push(buf@[i as int - 1]));
        }
        assert(buf@.subrange(0, i as int) == buf@);
        self.count = self.count + buf.len() as u32;
        Ok(buf.len())
    }

    /// Nothing is buffered here, so flushing always succeeds.
    pub fn flush(&mut self) -> (r: Result<(), CapacityExceeded>)
        ensures
            r is Ok,
            *final(self) == *old(self),
    {
        Ok(())
    }

    /// Give back the sink.
    pub fn into_inner(self) -> (r: Vec<u8>)
        ensures
            r@ == self.inner@,
    {
        self.inner
    }
}

} // verus!
