use vstd::prelude::*;
use crate::bytes::sentinel_bytes;
use crate::flash_device::{
    SENTINEL, erased, lemma_program_erased, program, program_byte, programmed, range_cleared,
    range_erased,
};

verus! {

/// A byte-addressable flash device that serves single bytes and blocks of bytes; callers
/// keep within its bounds and program only erased cells.
pub trait FlashDevice {
    /// The bytes the device holds, address by address.
    spec fn contents(&self) -> Seq<u8>;

    /// Reads the byte at `offset`.
    fn read(&self, offset: usize) -> (r: u8)
        requires
            offset < self.contents().len(),
        ensures
            r == self.contents()[offset as int],
    ;

    /// Reads `size` bytes at `offset`.
    fn read_block(&self, offset: usize, size: usize) -> (r: &[u8])
        requires
            size > 0,
            offset + size <= self.contents().len(),
        ensures
            r@ == self.contents().subrange(offset as int, offset + size),
    ;

    /// Programs the erased cell at `offset` with `data`.
    fn write(&mut self, offset: usize, data: u8)
        requires
            offset < old(self).contents().len(),
            old(self).contents()[offset as int] == SENTINEL,
        ensures
            final(self).contents() == old(self).contents().update(
                offset as int,
                program(SENTINEL, data),
            ),
    ;

    /// Programs the erased cells from `offset` on with `data`.
    fn write_block(&mut self, offset: usize, data: &[u8])
        requires
            offset + data@.len() <= old(self).contents().len(),
            range_erased(old(self).contents(), offset as int, data@.len() as int),
        ensures
            final(self).contents() == programmed(old(self).contents(), offset as int, data@),
    ;

    /// Erases the cell at `offset`.
    fn erase(&mut self, offset: usize)
        requires
            offset < old(self).contents().len(),
        ensures
            final(self).contents() == old(self).contents().update(offset as int, SENTINEL),
    ;

    /// Erases the cells of `[offset, offset + size)`.
    fn erase_block(&mut self, offset: usize, size: usize)
        requires
            offset + size <= old(self).contents().len(),
        ensures
            final(self).contents() == range_cleared(old(self).contents(), offset as int, size as int),
    ;

    /// Erases the whole device.
    fn erase_device(&mut self)
        ensures
            final(self).contents() == erased(old(self).contents().len()),
    ;
}

/// A device that holds every byte in memory.
pub struct NandDevice {
    data: Vec<u8>,
}

impl NandDevice {
    /// The bytes the device holds.
    pub closed spec fn cells(&self) -> Seq<u8> {
        self.data@
    }

    /// An erased device of `size` bytes.
    pub fn new(size: usize) -> (r: NandDevice)
        ensures
            r.contents() == erased(size as nat),
    {
        NandDevice { data: sentinel_bytes(size) }
    }
}

impl FlashDevice for NandDevice {
    open spec fn contents(&self) -> Seq<u8> {
        self.cells()
    }

    fn read(&self, offset: usize) -> (r: u8) {
        self.data[offset]
    }

    fn read_block(&self, offset: usize, size: usize) -> (r: &[u8]) {
        // The length of the cells bounds `offset` and the size within `usize`.
        let _len = self.data.len();
        vstd::slice::slice_subrange(self.data.as_slice(), offset, offset + size)
    }

    fn write(&mut self, offset: usize, data: u8) {
        let current = self.data[offset];
        self.data.set(offset, program_byte(current, data));
    }

    fn write_block(&mut self, offset: usize, data: &[u8]) {
        let ghost before = self.data@;
        // The length of the cells bounds `offset` and the size within `usize`.
        let _len = self.data.len();
        let end = offset + data.len();
        let mut i: usize = 0;
        while i < data.len()
            invariant
                end == offset + data@.len(),
                before.len() == self.data@.len(),
                end <= before.len(),
                i <= data@.len(),
                range_erased(before, offset as int, data@.len() as int),
                self.data@ == programmed(before, offset as int, data@.take(i as int)),
            decreases data@.len() - i,
        {
            let current = self.data[offset + i];
            proof {
                lemma_program_erased(data@[i as int]);
            }
            self.data.set(offset + i, program_byte(current, data[i]));
            i += 1;
            assert(self.data@ =~= programmed(before, offset as int, data@.take(i as int)));
        }
        assert(data@.take(data@.len() as int) =~= data@);
    }

    fn erase(&mut self, offset: usize) {
        self.data.set(offset, SENTINEL);
    }

    fn erase_block(&mut self, offset: usize, size: usize) {
        let ghost before = self.data@;
        // The length of the cells bounds `offset` and the size within `usize`.
        let _len = self.data.len();
        let end = offset + size;
        let mut i: usize = offset;
        while i < end
            invariant
                end == offset + size,
                before.len() == self.data@.len(),
                end <= before.len(),
                offset <= i <= end,
                self.data@ == range_cleared(before, offset as int, i - offset),
            decreases end - i,
        {
            self.data.set(i, SENTINEL);
            i += 1;
            assert(self.data@ =~= range_cleared(before, offset as int, i - offset));
        }
    }

    fn erase_device(&mut self) {
        let n = self.data.len();
        let mut i: usize = 0;
        while i < n
            invariant
                n == self.data@.len(),
                i <= n,
                forall|k: int| 0 <= k < i ==> #[trigger] self.data@[k] == SENTINEL,
            decreases n - i,
        {
            self.data.set(i, SENTINEL);
            i += 1;
        }
        assert(self.data@ =~= erased(n as nat));
    }
}

} // verus!
