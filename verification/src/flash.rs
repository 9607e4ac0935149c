//! The storage device under a store.

use vstd::prelude::*;

verus! {

/// A byte-addressed storage device, with the calls of
/// `embedded_storage::ReadStorage::read` and `embedded_storage::Storage::write`.
///
/// The contracts speak of `contents`, the bytes the device holds, and of
/// `reliable`, whether every access inside the device succeeds. A device
/// that cannot promise that leaves `reliable` false; its calls may then
/// fail at any time, and a failed write may leave any bytes behind. A device
/// that does not model its bytes keeps the defaults (no bytes, not reliable):
/// its calls then meet these contracts whatever they do, and the store
/// promises nothing of what it reads or writes there.
pub trait Flash {
    /// The bytes the device holds.
    closed spec fn contents(&self) -> Seq<u8> {
        Seq::empty()
    }

    /// Whether every read and write inside the device succeeds.
    closed spec fn reliable(&self) -> bool {
        false
    }

    /// Reads `bytes.len()` bytes starting at `offset`.
    fn read(&mut self, offset: u32, bytes: &mut [u8]) -> (r: Result<(), ()>)
        ensures
            final(self).contents() == old(self).contents(),
            final(self).reliable() == old(self).reliable(),
            final(bytes)@.len() == old(bytes)@.len(),
            r is Ok && offset + old(bytes)@.len() <= old(self).contents().len() ==> final(bytes)@
                == old(self).contents().subrange(offset as int, offset + old(bytes)@.len()),
            old(self).reliable() && offset + old(bytes)@.len() <= old(self).contents().len()
                ==> r is Ok,
    ;

    /// Writes `bytes` starting at `offset`.
    fn write(&mut self, offset: u32, bytes: &[u8]) -> (r: Result<(), ()>)
        ensures
            final(self).reliable() == old(self).reliable(),
            final(self).contents().len() == old(self).contents().len(),
            r is Ok && offset + bytes@.len() <= old(self).contents().len()
                ==> final(self).contents() == old(self).contents().update_subrange_with(offset as int, bytes@),
            old(self).reliable() && offset + bytes@.len() <= old(self).contents().len() ==> r is Ok,
    ;
}

/// A device kept in RAM.
pub struct RamFlash {
    pub mem: Vec<u8>,
}

impl RamFlash {
    /// A device of `size` erased bytes.
    pub fn new(size: usize) -> (r: RamFlash)
        ensures
            r.mem@ == Seq::new(size as nat, |i: int| 0xFFu8),
            r.contents() == Seq::new(size as nat, |i: int| 0xFFu8),
            r.reliable(),
    {
        let mem = vec![0xFFu8; size];
        assert(mem@ =~= Seq::new(size as nat, |i: int| 0xFFu8));
        RamFlash { mem }
    }
}

impl Flash for RamFlash {
    open spec fn contents(&self) -> Seq<u8> {
        self.mem@
    }

    open spec fn reliable(&self) -> bool {
        true
    }

    fn read(&mut self, offset: u32, bytes: &mut [u8]) -> (r: Result<(), ()>) {
        let o = offset as usize;
        if bytes.len() > self.mem.len() || o > self.mem.len() - bytes.len() {
            return Err(());
        }
        let ghost src = self.mem@.subrange(o as int, o + bytes@.len());
        let mut i: usize = 0;
        while i < bytes.len()
            invariant
                o + bytes@.len() <= self.mem.len(),
                src == self.mem@.subrange(o as int, o + bytes@.len()),
                bytes@.len() == src.len(),
                i <= bytes@.len(),
                forall|k: int| 0 <= k < i ==> bytes@[k] == src[k],
            decreases bytes@.len() - i,
        {
            let b = self.mem[o + i];
            bytes[i] = b;
            i = i + 1;
        }
        assert(bytes@ =~= src);
        Ok(())
    }

    fn write(&mut self, offset: u32, bytes: &[u8]) -> (r: Result<(), ()>) {
        let o = offset as usize;
        if bytes.len() > self.mem.len() || o > self.mem.len() - bytes.len() {
            return Err(());
        }
        let ghost before = self.mem@;
        let mut i: usize = 0;
        while i < bytes.len()
            invariant
                o + bytes@.len() <= before.len(),
                self.mem@.len() == before.len(),
                o + bytes@.len() <= self.mem.len(),
                i <= bytes@.len(),
                forall|k: int|
                    0 <= k < before.len() ==> self.mem@[k] == (if o <= k < o + i {
                        bytes@[k - o]
                    } else {
                        before[k]
                    }),
            decreases bytes@.len() - i,
        {
            self.mem.set(o + i, bytes[i]);
            i = i + 1;
        }
        assert(self.mem@ =~= before.update_subrange_with(o as int, bytes@));
        Ok(())
    }
}

} // verus!
