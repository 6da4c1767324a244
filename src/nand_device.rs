use vstd::prelude::*;
use crate::bytes::{append_range, sentinel_bytes};
use crate::flash_device::{
    FlashDevice, FlashError, SENTINEL, check_bounds, check_read, erased, lemma_program_erased,
    program_byte, programmed, range_cleared, range_erased,
};

verus! {

/// A device that holds every byte, and programs a byte only while it is erased.
pub struct NandDevice {
    data: Vec<u8>,
}

impl NandDevice {
    /// The bytes the device holds.
    pub closed spec fn cells(&self) -> Seq<u8> {
        self.data@
    }

    /// An erased device of `size` bytes.
    pub fn new(size: usize) -> (r: NandDevice)
        ensures
            r.inv(),
            r.contents() == erased(size as nat),
    {
        NandDevice { data: sentinel_bytes(size) }
    }
}

impl FlashDevice for NandDevice {
    open spec fn contents(&self) -> Seq<u8> {
        self.cells()
    }

    open spec fn inv(&self) -> bool {
        true
    }

    open spec fn rewritable(&self) -> bool {
        false
    }

    fn read(&self, offset: usize, size: usize) -> (r: Result<Vec<u8>, FlashError>) {
        match check_read(self.data.len(), offset, size) {
            Err(e) => {
                return Err(e);
            },
            Ok(()) => {},
        }
        let mut r: Vec<u8> = Vec::new();
        append_range(&mut r, self.data.as_slice(), offset, offset + size);
        assert(r@ =~= self.data@.subrange(offset as int, offset + size));
        Ok(r)
    }

    fn write(&mut self, offset: usize, data: &[u8]) -> (r: Result<(), FlashError>) {
        match check_bounds(self.data.len(), offset, data.len()) {
            Err(e) => {
                return Err(e);
            },
            Ok(()) => {},
        }
        let end = offset + data.len();
        let mut i: usize = 0;
        while i < data.len()
            invariant
                end == offset + data@.len(),
                offset + data@.len() <= self.data@.len(),
                i <= data@.len(),
                range_erased(self.data@, offset as int, i as int),
            decreases data@.len() - i,
        {
            if self.data[offset + i] != SENTINEL {
                return Err(FlashError::WriteToNonErasedCell);
            }
            i += 1;
        }
        let ghost before = self.data@;
        let mut i: usize = 0;
        while i < data.len()
            invariant
                end == offset + data@.len(),
                before.len() == self.data@.len(),
                offset + data@.len() <= before.len(),
                i <= data@.len(),
                range_erased(before, offset as int, data@.len() as int),
                self.data@ == programmed(before, offset as int, data@.take(i as int)),
            decreases data@.len() - i,
        {
            let current = self.data[offset + i];
            proof {
                lemma_program_erased(data@[i as int]);
            }
            self.data.set(offset + i, program_byte(current, data[i]));
            i += 1;
            assert(self.data@ =~= programmed(before, offset as int, data@.take(i as int)));
        }
        assert(data@.take(data@.len() as int) =~= data@);
        Ok(())
    }

    fn erase(&mut self, offset: usize, size: usize) -> (r: Result<(), FlashError>) {
        match check_bounds(self.data.len(), offset, size) {
            Err(e) => {
                return Err(e);
            },
            Ok(()) => {},
        }
        let ghost before = self.data@;
        let end = offset + size;
        let mut i: usize = offset;
        while i < end
            invariant
                end == offset + size,
                before.len() == self.data@.len(),
                offset + size <= before.len(),
                offset <= i <= offset + size,
                self.data@ == range_cleared(before, offset as int, i - offset),
            decreases end - i,
        {
            self.data.set(i, SENTINEL);
            i += 1;
            assert(self.data@ =~= range_cleared(before, offset as int, i - offset));
        }
        Ok(())
    }

    fn erase_device(&mut self) -> (r: Result<(), FlashError>) {
        let n = self.data.len();
        let mut i: usize = 0;
        while i < n
            invariant
                n == self.data@.len(),
                i <= n,
                forall|k: int| 0 <= k < i ==> #[trigger] self.data@[k] == SENTINEL,
            decreases n - i,
        {
            self.data.set(i, SENTINEL);
            i += 1;
        }
        assert(self.data@ =~= erased(n as nat));
        Ok(())
    }
}

} // verus!
