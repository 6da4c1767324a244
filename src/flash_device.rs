use vstd::prelude::*;

verus! {

/// The byte value of an erased, unprogrammed cell.
pub const SENTINEL: u8 = 0xFF;

/// Why a device operation was refused.
#[derive(Debug, Clone, Copy, PartialEq, Eq, Structural)]
pub enum FlashError {
    /// The range `[offset, offset + size)` reaches past the device's capacity.
    OutOfBounds,
    /// A read of zero bytes.
    InvalidArgument,
    /// A write over a byte that is not erased, on a backend that forbids it.
    WriteToNonErasedCell,
}

/// Whether `[offset, offset + size)` lies within a device of `capacity` bytes.
pub open spec fn in_bounds(capacity: int, offset: int, size: int) -> bool {
    offset + size <= capacity
}

/// Programming a cell: its bits can only go from one to zero.
pub open spec fn program(current: u8, incoming: u8) -> u8 {
    current & incoming
}

/// A device of `capacity` bytes, all erased.
pub open spec fn erased(capacity: nat) -> Seq<u8> {
    Seq::new(capacity, |_i: int| SENTINEL)
}

/// Whether every byte of `[offset, offset + size)` is erased.
pub open spec fn range_erased(contents: Seq<u8>, offset: int, size: int) -> bool {
    forall|i: int| offset <= i < offset + size ==> #[trigger] contents[i] == SENTINEL
}

/// `contents` with the bytes from `offset` on replaced by `data`.
pub open spec fn programmed(contents: Seq<u8>, offset: int, data: Seq<u8>) -> Seq<u8> {
    Seq::new(
        contents.len(),
        |i: int|
            if offset <= i < offset + data.len() {
                data[i - offset]
            } else {
                contents[i]
            },
    )
}

/// `contents` with the bytes of `[offset, offset + size)` erased.
pub open spec fn range_cleared(contents: Seq<u8>, offset: int, size: int) -> Seq<u8> {
    Seq::new(
        contents.len(),
        |i: int|
            if offset <= i < offset + size {
                SENTINEL
            } else {
                contents[i]
            },
    )
}

/// Whether a read of `size` bytes at `offset` is accepted: it must be in bounds and not empty.
pub open spec fn read_check(capacity: int, offset: int, size: int) -> Result<(), FlashError> {
    if !in_bounds(capacity, offset, size) {
        Err(FlashError::OutOfBounds)
    } else if size == 0 {
        Err(FlashError::InvalidArgument)
    } else {
        Ok(())
    }
}

/// What a read of `size` bytes at `offset` returns.
pub open spec fn read_outcome(contents: Seq<u8>, offset: int, size: int) -> Result<
    Seq<u8>,
    FlashError,
> {
    match read_check(contents.len() as int, offset, size) {
        Err(e) => Err(e),
        Ok(()) => Ok(contents.subrange(offset, offset + size)),
    }
}

/// Whether a write of `data` at `offset` succeeds; a backend that is not `rewritable`
/// refuses to program a byte that is not erased.
pub open spec fn write_outcome(
    contents: Seq<u8>,
    rewritable: bool,
    offset: int,
    data: Seq<u8>,
) -> Result<(), FlashError> {
    if !in_bounds(contents.len() as int, offset, data.len() as int) {
        Err(FlashError::OutOfBounds)
    } else if !rewritable && !range_erased(contents, offset, data.len() as int) {
        Err(FlashError::WriteToNonErasedCell)
    } else {
        Ok(())
    }
}

/// Whether an erase of `[offset, offset + size)` succeeds.
pub open spec fn erase_outcome(capacity: int, offset: int, size: int) -> Result<(), FlashError> {
    if in_bounds(capacity, offset, size) {
        Ok(())
    } else {
        Err(FlashError::OutOfBounds)
    }
}

/// The bytes of a read result.
pub open spec fn bytes_of(r: Result<Vec<u8>, FlashError>) -> Result<Seq<u8>, FlashError> {
    match r {
        Ok(v) => Ok(v@),
        Err(e) => Err(e),
    }
}

/// A byte-addressable, erase-before-write storage device.
pub trait FlashDevice: Sized {
    /// The bytes the device holds, address by address; its length is the capacity.
    spec fn contents(&self) -> Seq<u8>;

    /// Whether the device's internal representation is consistent.
    spec fn inv(&self) -> bool;

    /// Whether the device accepts a write over bytes that are not erased.
    spec fn rewritable(&self) -> bool;

    /// Reads `size` bytes at `offset`.
    fn read(&self, offset: usize, size: usize) -> (r: Result<Vec<u8>, FlashError>)
        requires
            self.inv(),
        ensures
            bytes_of(r) == read_outcome(self.contents(), offset as int, size as int),
    ;

    /// Programs `data` at `offset`; on failure nothing changes.
    fn write(&mut self, offset: usize, data: &[u8]) -> (r: Result<(), FlashError>)
        requires
            old(self).inv(),
        ensures
            final(self).inv(),
            final(self).rewritable() == old(self).rewritable(),
            r == write_outcome(old(self).contents(), old(self).rewritable(), offset as int, data@),
            final(self).contents() == (if r is Ok {
                programmed(old(self).contents(), offset as int, data@)
            } else {
                old(self).contents()
            }),
    ;

    /// Erases `[offset, offset + size)`; on failure nothing changes.
    fn erase(&mut self, offset: usize, size: usize) -> (r: Result<(), FlashError>)
        requires
            old(self).inv(),
        ensures
            final(self).inv(),
            final(self).rewritable() == old(self).rewritable(),
            r == erase_outcome(old(self).contents().len() as int, offset as int, size as int),
            final(self).contents() == (if r is Ok {
                range_cleared(old(self).contents(), offset as int, size as int)
            } else {
                old(self).contents()
            }),
    ;

    /// Erases the whole device.
    fn erase_device(&mut self) -> (r: Result<(), FlashError>)
        requires
            old(self).inv(),
        ensures
            final(self).inv(),
            final(self).rewritable() == old(self).rewritable(),
            r is Ok,
            final(self).contents() == erased(old(self).contents().len()),
    ;
}

/// Checks that `[offset, offset + size)` lies within `capacity` bytes, without overflow.
pub fn check_bounds(capacity: usize, offset: usize, size: usize) -> (r: Result<(), FlashError>)
    ensures
        r == erase_outcome(capacity as int, offset as int, size as int),
{
    if offset > capacity || size > capacity - offset {
        Err(FlashError::OutOfBounds)
    } else {
        Ok(())
    }
}

/// Checks a read of `size` bytes at `offset` on a device of `capacity` bytes.
pub fn check_read(capacity: usize, offset: usize, size: usize) -> (r: Result<(), FlashError>)
    ensures
        r == read_check(capacity as int, offset as int, size as int),
{
    match check_bounds(capacity, offset, size) {
        Err(e) => Err(e),
        Ok(()) => {
            if size == 0 {
                Err(FlashError::InvalidArgument)
            } else {
                Ok(())
            }
        },
    }
}

/// Programs one cell: the bitwise AND of its current value and the incoming one.
pub fn program_byte(current: u8, incoming: u8) -> (r: u8)
    ensures
        r == program(current, incoming),
{
    current & incoming
}

/// Programming an erased cell stores the incoming value.
pub proof fn lemma_program_erased(incoming: u8)
    ensures
        program(SENTINEL, incoming) == incoming,
{
    assert(0xFFu8 & incoming == incoming) by (bit_vector);
}


/// After the whole device is erased, every read that is in bounds and not empty returns
/// only sentinel bytes.
pub proof fn lemma_erased_reads_sentinel(capacity: nat, offset: int, size: int)
    requires
        0 <= offset,
        0 < size,
        offset + size <= capacity,
    ensures
        read_outcome(erased(capacity), offset, size) == Ok::<Seq<u8>, FlashError>(
            Seq::new(size as nat, |_i: int| SENTINEL),
        ),
{
    assert(erased(capacity).subrange(offset, offset + size) =~= Seq::new(
        size as nat,
        |_i: int| SENTINEL,
    ));
}

/// On any backend, a write over erased bytes succeeds, and reading the same range back
/// returns the data written.
pub proof fn lemma_write_then_read(contents: Seq<u8>, rewritable: bool, offset: int, data: Seq<u8>)
    requires
        0 <= offset,
        0 < data.len(),
        offset + data.len() <= contents.len(),
        range_erased(contents, offset, data.len() as int),
    ensures
        write_outcome(contents, rewritable, offset, data) == Ok::<(), FlashError>(()),
        read_outcome(programmed(contents, offset, data), offset, data.len() as int) == Ok::<
            Seq<u8>,
            FlashError,
        >(data),
{
    assert(programmed(contents, offset, data).subrange(offset, offset + data.len()) =~= data);
}

/// On a backend that is not rewritable, a write over any byte that is not erased fails
/// with `WriteToNonErasedCell` (and the write's contract leaves the device unchanged).
pub proof fn lemma_write_to_programmed_rejected(contents: Seq<u8>, offset: int, data: Seq<u8>, at: int)
    requires
        in_bounds(contents.len() as int, offset, data.len() as int),
        offset <= at < offset + data.len(),
        contents[at] != SENTINEL,
    ensures
        write_outcome(contents, false, offset, data) == Err::<(), FlashError>(
            FlashError::WriteToNonErasedCell,
        ),
{
}

/// Every operation on a range that reaches past the capacity fails with `OutOfBounds`.
pub proof fn lemma_out_of_bounds(
    contents: Seq<u8>,
    rewritable: bool,
    offset: int,
    size: int,
    data: Seq<u8>,
)
    requires
        offset + size > contents.len(),
    ensures
        read_outcome(contents, offset, size) == Err::<Seq<u8>, FlashError>(FlashError::OutOfBounds),
        erase_outcome(contents.len() as int, offset, size) == Err::<(), FlashError>(
            FlashError::OutOfBounds,
        ),
        data.len() == size ==> write_outcome(contents, rewritable, offset, data) == Err::<
            (),
            FlashError,
        >(FlashError::OutOfBounds),
{
}

} // verus!
