use vstd::prelude::*;
use crate::bytes::{append_range, overwrite_range, sentinel_bytes};
use crate::flash_device::{FlashDevice, FlashError, check_bounds, check_read, erased};
use crate::spans::{
    Span, byte_at, count_ending_by, count_starting_before, head_piece, lemma_count_ending_by,
    lemma_count_starting_before, lemma_erase, lemma_write, materialize, span_end,
    spans_after_erase, spans_after_write, spans_wf, tail_piece,
};

verus! {

/// A run of programmed bytes starting at address `start`.
pub struct Chunk {
    pub start: usize,
    pub data: Vec<u8>,
}

impl Chunk {
    /// The chunk as a span of bytes.
    pub open spec fn span(&self) -> Span {
        (self.start as int, self.data@)
    }
}

/// A device that stores only the runs of bytes written since they were last erased.
pub struct SparseDevice {
    size: usize,
    chunks: Vec<Chunk>,
}

impl SparseDevice {
    /// The stored runs, in ascending order of address.
    pub closed spec fn spans(&self) -> Seq<Span> {
        self.chunks@.map_values(|c: Chunk| c.span())
    }

    /// The number of bytes the device holds.
    pub closed spec fn capacity(&self) -> nat {
        self.size as nat
    }

    /// An erased device of `size` bytes, holding no chunk.
    pub fn new(size: usize) -> (r: SparseDevice)
        ensures
            r.inv(),
            r.capacity() == size,
            r.spans() == Seq::<Span>::empty(),
            r.contents() == erased(size as nat),
    {
        let r = SparseDevice { size, chunks: Vec::new() };
        assert(r.spans() =~= Seq::<Span>::empty());
        assert(r.contents() =~= erased(size as nat));
        r
    }

    /// The number of chunks stored.
    pub fn used_chunks(&self) -> (r: usize)
        ensures
            r == self.spans().len(),
    {
        self.chunks.len()
    }

    /// Each chunk is the span of the same index, and ends within the device.
    proof fn lemma_chunks(&self)
        requires
            self.inv(),
        ensures
            self.chunks@.len() == self.spans().len(),
            forall|k: int|
                0 <= k < self.chunks@.len() ==> (#[trigger] self.chunks@[k]).span() == self.spans()[k]
                    && self.chunks@[k].start + self.chunks@[k].data@.len() <= self.size,
    {
        assert forall|k: int| 0 <= k < self.chunks@.len() implies (#[trigger] self.chunks@[k]).span()
            == self.spans()[k] && self.chunks@[k].start + self.chunks@[k].data@.len() <= self.size by {
            assert(self.spans()[k] == self.chunks@[k].span());
        }
    }

    /// The number of chunks, from the first on, that end at or before `offset`.
    fn count_ending_by(&self, offset: usize) -> (r: usize)
        requires
            self.inv(),
        ensures
            r == count_ending_by(self.spans(), offset as int),
    {
        let ghost s = self.spans();
        proof {
            self.lemma_chunks();
        }
        let mut i: usize = 0;
        while i < self.chunks.len() && self.chunks[i].start + self.chunks[i].data.len() <= offset
            invariant
                self.inv(),
                self.chunks@.len() == s.len(),
                forall|k: int|
                    0 <= k < self.chunks@.len() ==> (#[trigger] self.chunks@[k]).span() == s[k]
                        && self.chunks@[k].start + self.chunks@[k].data@.len() <= self.size,
                s == self.spans(),
                i <= s.len(),
                forall|k: int| 0 <= k < i ==> span_end(#[trigger] s[k]) <= offset,
            decreases s.len() - i,
        {
            assert(s[i as int] == self.chunks@[i as int].span());
            i += 1;
        }
        proof {
            lemma_count_ending_by(s, offset as int);
            let c = count_ending_by(s, offset as int);
            if i < s.len() {
                assert(s[i as int] == self.chunks@[i as int].span());
            }
            if c < i {
                assert(span_end(s[c]) <= offset);
            }
        }
        i
    }

    /// The number of chunks, from the first on, that start before `end`; the first `from`
    /// of them are known to.
    fn count_starting_before(&self, end: usize, from: usize) -> (r: usize)
        requires
            self.inv(),
            from <= self.spans().len(),
            forall|k: int| 0 <= k < from ==> (#[trigger] self.spans()[k]).0 < end,
        ensures
            r == count_starting_before(self.spans(), end as int),
    {
        let ghost s = self.spans();
        let mut i: usize = from;
        while i < self.chunks.len() && self.chunks[i].start < end
            invariant
                self.inv(),
                s == self.spans(),
                i <= s.len(),
                forall|k: int| 0 <= k < i ==> (#[trigger] s[k]).0 < end,
            decreases s.len() - i,
        {
            assert(s[i as int] == self.chunks@[i as int].span());
            i += 1;
        }
        proof {
            lemma_count_starting_before(s, end as int);
            let c = count_starting_before(s, end as int);
            if i < s.len() {
                assert(s[i as int] == self.chunks@[i as int].span());
            }
            if c < i {
                assert(s[c].0 < end);
            }
        }
        i
    }

    /// Replaces the chunks `[lo, hi)` by `mid`.
    fn replace_chunks(&mut self, lo: usize, hi: usize, mid: Vec<Chunk>)
        requires
            lo <= hi <= old(self).chunks@.len(),
        ensures
            final(self).size == old(self).size,
            final(self).spans() == old(self).spans().take(lo as int) + mid@.map_values(
                |c: Chunk| c.span(),
            ) + old(self).spans().skip(hi as int),
    {
        let ghost old_chunks = self.chunks@;
        let ghost mid_chunks = mid@;
        let mut middle = mid;
        let mut tail = self.chunks.split_off(hi);
        self.chunks.truncate(lo);
        self.chunks.append(&mut middle);
        self.chunks.append(&mut tail);
        assert(self.chunks@ =~= old_chunks.take(lo as int) + mid_chunks + old_chunks.skip(hi as int));
        assert(self.spans() =~= old(self).spans().take(lo as int) + mid_chunks.map_values(
            |c: Chunk| c.span(),
        ) + old(self).spans().skip(hi as int));
    }
}

impl FlashDevice for SparseDevice {
    open spec fn contents(&self) -> Seq<u8> {
        materialize(self.spans(), self.capacity())
    }

    open spec fn inv(&self) -> bool {
        spans_wf(self.spans(), self.capacity() as int)
    }

    open spec fn rewritable(&self) -> bool {
        true
    }

    fn read(&self, offset: usize, size: usize) -> (r: Result<Vec<u8>, FlashError>) {
        match check_read(self.size, offset, size) {
            Err(e) => {
                return Err(e);
            },
            Ok(()) => {},
        }
        let ghost s = self.spans();
        let end = offset + size;
        let mut buf = sentinel_bytes(size);
        let mut i: usize = 0;
        while i < self.chunks.len()
            invariant
                self.inv(),
                s == self.spans(),
                end == offset + size,
                end <= self.size,
                i <= s.len(),
                buf@.len() == size,
                forall|k: int| 0 <= k < size ==> #[trigger] buf@[k] == byte_at(s.take(i as int), offset + k),
            decreases s.len() - i,
        {
            let chunk = &self.chunks[i];
            assert(s[i as int] == chunk.span());
            let chunk_end = chunk.start + chunk.data.len();
            let ghost prev = buf@;
            if chunk.start < end && chunk_end > offset {
                let from = if chunk.start > offset { chunk.start } else { offset };
                let to = if chunk_end < end { chunk_end } else { end };
                overwrite_range(&mut buf, from - offset, chunk.data.as_slice(), from - chunk.start, to - chunk.start);
            }
            proof {
                let t = s.take(i + 1);
                assert(t.drop_last() =~= s.take(i as int));
                assert(t.last() == s[i as int]);
                assert forall|k: int| 0 <= k < size implies #[trigger] buf@[k] == byte_at(t, offset + k) by {
                    assert(prev[k] == byte_at(s.take(i as int), offset + k));
                }
            }
            i += 1;
        }
        proof {
            assert(s.take(s.len() as int) =~= s);
            assert(buf@ =~= self.contents().subrange(offset as int, offset + size));
        }
        Ok(buf)
    }

    fn write(&mut self, offset: usize, data: &[u8]) -> (r: Result<(), FlashError>)
        ensures
            r is Ok ==> final(self).spans() == spans_after_write(old(self).spans(), offset as int, data@),
    {
        match check_bounds(self.size, offset, data.len()) {
            Err(e) => {
                return Err(e);
            },
            Ok(()) => {},
        }
        proof {
            lemma_write(self.spans(), self.size as int, offset as int, data@);
        }
        if data.len() == 0 {
            return Ok(());
        }
        let ghost s = self.spans();
        let end = offset + data.len();
        let lo = self.count_ending_by(offset);
        proof {
            lemma_count_ending_by(s, offset as int);
            assert forall|k: int| 0 <= k < lo implies (#[trigger] s[k]).0 < end by {}
        }
        let hi = self.count_starting_before(end, lo);
        proof {
            lemma_count_starting_before(s, end as int);
            if hi < lo {
                assert(span_end(s[hi as int]) <= offset);
            }
        }
        let ghost head = head_piece(s, lo as int, hi as int, offset as int);
        let ghost tail = tail_piece(s, lo as int, hi as int, end as int);
        let mut bytes: Vec<u8> = Vec::new();
        let mut start = offset;
        if lo < hi && self.chunks[lo].start < offset {
            assert(s[lo as int] == self.chunks@[lo as int].span());
            start = self.chunks[lo].start;
            append_range(&mut bytes, self.chunks[lo].data.as_slice(), 0, offset - start);
        }
        assert(bytes@ == head);
        assert(start == offset - head.len());
        append_range(&mut bytes, data, 0, data.len());
        assert(bytes@ =~= head + data@);
        if lo < hi {
            let last = &self.chunks[hi - 1];
            assert(s[hi - 1] == last.span());
            let last_end = last.start + last.data.len();
            if last_end > end {
                append_range(&mut bytes, last.data.as_slice(), end - last.start, last.data.len());
            }
        }
        assert(bytes@ =~= head + data@ + tail);
        let mut mid: Vec<Chunk> = Vec::new();
        mid.push(Chunk { start, data: bytes });
        let ghost mid_spans = mid@.map_values(|c: Chunk| c.span());
        assert(mid_spans =~= seq![(offset - head.len(), head + data@ + tail)]);
        self.replace_chunks(lo, hi, mid);
        proof {
            assert(self.spans() =~= spans_after_write(s, offset as int, data@));
        }
        Ok(())
    }

    fn erase(&mut self, offset: usize, size: usize) -> (r: Result<(), FlashError>)
        ensures
            r is Ok ==> final(self).spans() == spans_after_erase(old(self).spans(), offset as int, size as int),
    {
        match check_bounds(self.size, offset, size) {
            Err(e) => {
                return Err(e);
            },
            Ok(()) => {},
        }
        proof {
            lemma_erase(self.spans(), self.size as int, offset as int, size as int);
        }
        if size == 0 {
            return Ok(());
        }
        let ghost s = self.spans();
        let end = offset + size;
        let lo = self.count_ending_by(offset);
        proof {
            lemma_count_ending_by(s, offset as int);
            assert forall|k: int| 0 <= k < lo implies (#[trigger] s[k]).0 < end by {}
        }
        let hi = self.count_starting_before(end, lo);
        proof {
            lemma_count_starting_before(s, end as int);
            if hi < lo {
                assert(span_end(s[hi as int]) <= offset);
            }
        }
        let mut mid: Vec<Chunk> = Vec::new();
        if lo < hi && self.chunks[lo].start < offset {
            assert(s[lo as int] == self.chunks@[lo as int].span());
            let first = &self.chunks[lo];
            let mut head: Vec<u8> = Vec::new();
            append_range(&mut head, first.data.as_slice(), 0, offset - first.start);
            mid.push(Chunk { start: first.start, data: head });
        }
        if lo < hi {
            let last = &self.chunks[hi - 1];
            assert(s[hi - 1] == last.span());
            let last_end = last.start + last.data.len();
            if last_end > end {
                let mut tail: Vec<u8> = Vec::new();
                append_range(&mut tail, last.data.as_slice(), end - last.start, last.data.len());
                mid.push(Chunk { start: end, data: tail });
            }
        }
        self.replace_chunks(lo, hi, mid);
        proof {
            assert(self.spans() =~= spans_after_erase(s, offset as int, size as int));
        }
        Ok(())
    }

    fn erase_device(&mut self) -> (r: Result<(), FlashError>)
        ensures
            final(self).spans() == Seq::<Span>::empty(),
    {
        self.chunks.clear();
        assert(self.spans() =~= Seq::<Span>::empty());
        assert(self.contents() =~= erased(self.size as nat));
        Ok(())
    }
}

} // verus!
