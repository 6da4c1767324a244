use vstd::prelude::*;
use crate::flash_device::{SENTINEL, programmed, range_cleared};

verus! {

/// A run of programmed bytes: the address of its first byte, and its bytes.
pub type Span = (int, Seq<u8>);

/// One past the address of the last byte of `c`.
pub open spec fn span_end(c: Span) -> int {
    c.0 + c.1.len()
}

/// Whether `c` holds the byte at address `a`.
pub open spec fn covers(c: Span, a: int) -> bool {
    c.0 <= a < span_end(c)
}

/// Whether `c` shares a byte with `[lo, hi)`.
pub open spec fn intersects(c: Span, lo: int, hi: int) -> bool {
    c.0 < hi && lo < span_end(c)
}

/// Spans are non-empty, lie within `capacity`, ascend by address and do not overlap.
pub open spec fn spans_wf(s: Seq<Span>, capacity: int) -> bool {
    &&& forall|i: int|
        0 <= i < s.len() ==> 0 <= (#[trigger] s[i]).0 && s[i].1.len() > 0 && span_end(s[i])
            <= capacity
    &&& forall|i: int, j: int| 0 <= i < j < s.len() ==> span_end(#[trigger] s[i]) <= (#[trigger] s[j]).0
}

/// The byte at address `a`: that of the span holding it, else the sentinel.
pub open spec fn byte_at(s: Seq<Span>, a: int) -> u8
    decreases s.len(),
{
    if s.len() == 0 {
        SENTINEL
    } else if covers(s.last(), a) {
        s.last().1[a - s.last().0]
    } else {
        byte_at(s.drop_last(), a)
    }
}

/// The bytes of a device of `capacity` bytes that stores the spans `s`.
pub open spec fn materialize(s: Seq<Span>, capacity: nat) -> Seq<u8> {
    Seq::new(capacity, |a: int| byte_at(s, a))
}

/// How many spans, from the first on, end at or before `offset`.
pub open spec fn count_ending_by(s: Seq<Span>, offset: int) -> int
    decreases s.len(),
{
    if s.len() > 0 && span_end(s[0]) <= offset {
        1 + count_ending_by(s.drop_first(), offset)
    } else {
        0
    }
}

/// How many spans, from the first on, start before `end`.
pub open spec fn count_starting_before(s: Seq<Span>, end: int) -> int
    decreases s.len(),
{
    if s.len() > 0 && s[0].0 < end {
        1 + count_starting_before(s.drop_first(), end)
    } else {
        0
    }
}

/// The bytes of the span at `lo` that precede `offset`, where it is among the spans
/// `[lo, hi)` and starts before `offset`.
pub open spec fn head_piece(s: Seq<Span>, lo: int, hi: int, offset: int) -> Seq<u8> {
    if lo < hi && s[lo].0 < offset {
        s[lo].1.take(offset - s[lo].0)
    } else {
        Seq::empty()
    }
}

/// The bytes of the span at `hi - 1` from `end` on, where it is among the spans
/// `[lo, hi)` and ends after `end`.
pub open spec fn tail_piece(s: Seq<Span>, lo: int, hi: int, end: int) -> Seq<u8> {
    if lo < hi && span_end(s[hi - 1]) > end {
        s[hi - 1].1.skip(end - s[hi - 1].0)
    } else {
        Seq::empty()
    }
}

/// The spans after writing `data` at `offset`: the spans that overlap the written range
/// give way to one span made of what of them lies before the range, `data`, and what of
/// them lies after the range.
pub open spec fn spans_after_write(s: Seq<Span>, offset: int, data: Seq<u8>) -> Seq<Span> {
    if data.len() == 0 {
        s
    } else {
        let end = offset + data.len();
        let lo = count_ending_by(s, offset);
        let hi = count_starting_before(s, end);
        let head = head_piece(s, lo, hi, offset);
        let tail = tail_piece(s, lo, hi, end);
        s.take(lo) + seq![(offset - head.len(), head + data + tail)] + s.skip(hi)
    }
}

/// The spans after erasing `[offset, offset + size)`: the spans that overlap the range
/// give way to what of them lies before it and what of them lies after it.
pub open spec fn spans_after_erase(s: Seq<Span>, offset: int, size: int) -> Seq<Span> {
    if size <= 0 {
        s
    } else {
        let end = offset + size;
        let lo = count_ending_by(s, offset);
        let hi = count_starting_before(s, end);
        let head = head_piece(s, lo, hi, offset);
        let tail = tail_piece(s, lo, hi, end);
        let before: Seq<Span> = if head.len() > 0 {
            seq![(offset - head.len(), head)]
        } else {
            Seq::empty()
        };
        let after: Seq<Span> = if tail.len() > 0 {
            seq![(end, tail)]
        } else {
            Seq::empty()
        };
        s.take(lo) + before + after + s.skip(hi)
    }
}

/// What `count_ending_by` counts: the spans before it end by `offset`, the next does not.
pub proof fn lemma_count_ending_by(s: Seq<Span>, offset: int)
    ensures
        0 <= count_ending_by(s, offset) <= s.len(),
        forall|k: int| 0 <= k < count_ending_by(s, offset) ==> span_end(#[trigger] s[k]) <= offset,
        count_ending_by(s, offset) < s.len() ==> span_end(s[count_ending_by(s, offset)]) > offset,
    decreases s.len(),
{
    if s.len() > 0 && span_end(s[0]) <= offset {
        lemma_count_ending_by(s.drop_first(), offset);
        assert forall|k: int| 0 <= k < count_ending_by(s, offset) implies span_end(
            #[trigger] s[k],
        ) <= offset by {
            if k > 0 {
                assert(s[k] == s.drop_first()[k - 1]);
            }
        }
    }
}

/// What `count_starting_before` counts: the spans before it start before `end`, the next
/// does not.
pub proof fn lemma_count_starting_before(s: Seq<Span>, end: int)
    ensures
        0 <= count_starting_before(s, end) <= s.len(),
        forall|k: int| 0 <= k < count_starting_before(s, end) ==> (#[trigger] s[k]).0 < end,
        count_starting_before(s, end) < s.len() ==> s[count_starting_before(s, end)].0 >= end,
    decreases s.len(),
{
    if s.len() > 0 && s[0].0 < end {
        lemma_count_starting_before(s.drop_first(), end);
        assert forall|k: int| 0 <= k < count_starting_before(s, end) implies (
        #[trigger] s[k]).0 < end by {
            if k > 0 {
                assert(s[k] == s.drop_first()[k - 1]);
            }
        }
    }
}

/// A byte that no span holds reads as the sentinel.
pub proof fn lemma_byte_at_uncovered(s: Seq<Span>, a: int)
    requires
        forall|i: int| 0 <= i < s.len() ==> !covers(#[trigger] s[i], a),
    ensures
        byte_at(s, a) == SENTINEL,
    decreases s.len(),
{
    if s.len() > 0 {
        assert(!covers(s[s.len() - 1], a));
        assert forall|i: int| 0 <= i < s.drop_last().len() implies !covers(
            #[trigger] s.drop_last()[i],
            a,
        ) by {
            assert(s.drop_last()[i] == s[i]);
        }
        lemma_byte_at_uncovered(s.drop_last(), a);
    }
}

/// A byte that a span holds, and no later span, reads as that span's byte.
pub proof fn lemma_byte_at_covered(s: Seq<Span>, i: int, a: int)
    requires
        0 <= i < s.len(),
        covers(s[i], a),
        forall|j: int| i < j < s.len() ==> !covers(#[trigger] s[j], a),
    ensures
        byte_at(s, a) == s[i].1[a - s[i].0],
    decreases s.len(),
{
    if i < s.len() - 1 {
        assert(!covers(s[s.len() - 1], a));
        assert forall|j: int| i < j < s.drop_last().len() implies !covers(
            #[trigger] s.drop_last()[j],
            a,
        ) by {
            assert(s.drop_last()[j] == s[j]);
        }
        lemma_byte_at_covered(s.drop_last(), i, a);
    }
}

/// Among well-formed spans, the byte at `a` is that of the span holding it, if any.
pub proof fn lemma_byte_at_wf(s: Seq<Span>, capacity: int, a: int)
    requires
        spans_wf(s, capacity),
    ensures
        forall|i: int|
            0 <= i < s.len() && covers(#[trigger] s[i], a) ==> byte_at(s, a) == s[i].1[a - s[i].0],
        (forall|i: int| 0 <= i < s.len() ==> !covers(#[trigger] s[i], a)) ==> byte_at(s, a)
            == SENTINEL,
{
    assert forall|i: int| 0 <= i < s.len() && covers(#[trigger] s[i], a) implies byte_at(s, a)
        == s[i].1[a - s[i].0] by {
        assert forall|j: int| i < j < s.len() implies !covers(#[trigger] s[j], a) by {
            assert(span_end(s[i]) <= s[j].0);
        }
        lemma_byte_at_covered(s, i, a);
    }
    if forall|i: int| 0 <= i < s.len() ==> !covers(#[trigger] s[i], a) {
        lemma_byte_at_uncovered(s, a);
    }
}


/// Replacing the spans `[lo, hi)`, all within `[lo_addr, hi_addr)`, by the spans `mid`,
/// also within it, keeps the spans well formed and every byte outside that window, and
/// inside it reads what `mid` holds.
#[verifier::rlimit(40)]
pub proof fn lemma_splice(
    s: Seq<Span>,
    capacity: int,
    lo: int,
    hi: int,
    mid: Seq<Span>,
    lo_addr: int,
    hi_addr: int,
)
    requires
        spans_wf(s, capacity),
        spans_wf(mid, capacity),
        0 <= lo <= hi <= s.len(),
        forall|k: int| 0 <= k < lo ==> span_end(#[trigger] s[k]) <= lo_addr,
        forall|k: int| hi <= k < s.len() ==> (#[trigger] s[k]).0 >= hi_addr,
        forall|k: int| lo <= k < hi ==> lo_addr <= (#[trigger] s[k]).0 && span_end(s[k]) <= hi_addr,
        forall|k: int|
            0 <= k < mid.len() ==> lo_addr <= (#[trigger] mid[k]).0 && span_end(mid[k]) <= hi_addr,
    ensures
        spans_wf(s.take(lo) + mid + s.skip(hi), capacity),
        forall|a: int|
            !(lo_addr <= a < hi_addr) ==> #[trigger] byte_at(s.take(lo) + mid + s.skip(hi), a)
                == byte_at(s, a),
        forall|a: int|
            lo_addr <= a < hi_addr ==> #[trigger] byte_at(s.take(lo) + mid + s.skip(hi), a)
                == byte_at(mid, a),
{
    let t = s.take(lo) + mid + s.skip(hi);
    let n = mid.len() as int;
    assert(t.len() == lo + n + s.len() - hi);
    assert forall|k: int| 0 <= k < lo implies #[trigger] t[k] == s[k] by {}
    assert forall|k: int| lo <= k < lo + n implies #[trigger] t[k] == mid[k - lo] by {}
    assert forall|k: int| lo + n <= k < t.len() implies #[trigger] t[k] == s[k - lo - n + hi] by {}
    assert forall|i: int, j: int| 0 <= i < j < t.len() implies span_end(#[trigger] t[i]) <= (
    #[trigger] t[j]).0 by {
        if j < lo {
        } else if j < lo + n {
            if i >= lo {
                assert(span_end(mid[i - lo]) <= mid[j - lo].0);
            }
        } else {
            let jj = j - lo - n + hi;
            if i < lo {
                if hi < s.len() {
                    assert(span_end(s[i]) <= s[jj].0);
                }
            } else if i >= lo + n {
                let ii = i - lo - n + hi;
                assert(span_end(s[ii]) <= s[jj].0);
            }
        }
    }
    assert(spans_wf(t, capacity));
    assert forall|a: int| !(lo_addr <= a < hi_addr) implies #[trigger] byte_at(t, a) == byte_at(s, a) by {
        lemma_byte_at_wf(s, capacity, a);
        lemma_byte_at_wf(t, capacity, a);
        if exists|i: int| 0 <= i < s.len() && covers(#[trigger] s[i], a) {
            let i = choose|i: int| 0 <= i < s.len() && covers(#[trigger] s[i], a);
            if i < lo {
                assert(covers(t[i], a));
            } else {
                assert(i >= hi);
                assert(covers(t[i - hi + lo + n], a));
            }
        } else {
            assert forall|k: int| 0 <= k < t.len() implies !covers(#[trigger] t[k], a) by {
                if k < lo {
                    assert(!covers(s[k], a));
                } else if k >= lo + n {
                    assert(!covers(s[k - lo - n + hi], a));
                }
            }
        }
    }
    assert forall|a: int| lo_addr <= a < hi_addr implies #[trigger] byte_at(t, a) == byte_at(mid, a) by {
        lemma_byte_at_wf(mid, capacity, a);
        lemma_byte_at_wf(t, capacity, a);
        if exists|m: int| 0 <= m < mid.len() && covers(#[trigger] mid[m], a) {
            let m = choose|m: int| 0 <= m < mid.len() && covers(#[trigger] mid[m], a);
            assert(covers(t[lo + m], a));
        } else {
            assert forall|k: int| 0 <= k < t.len() implies !covers(#[trigger] t[k], a) by {
                if lo <= k < lo + n {
                    assert(!covers(mid[k - lo], a));
                } else if k >= lo + n && hi < s.len() {
                    assert(s[k - lo - n + hi].0 >= hi_addr);
                }
            }
        }
    }
}


/// Where the spans that overlap `[offset, end)` lie: they are the spans `[lo, hi)`, and
/// everything before them ends by the first byte kept of them, everything after them
/// starts after the last byte kept of them.
pub proof fn lemma_overlap_window(s: Seq<Span>, capacity: int, offset: int, end: int)
    requires
        spans_wf(s, capacity),
        0 <= offset < end <= capacity,
    ensures
        ({
            let lo = count_ending_by(s, offset);
            let hi = count_starting_before(s, end);
            let head = head_piece(s, lo, hi, offset);
            let tail = tail_piece(s, lo, hi, end);
            let lo_addr = offset - head.len();
            let hi_addr = end + tail.len();
            &&& 0 <= lo <= hi <= s.len()
            &&& 0 <= lo_addr <= offset
            &&& end <= hi_addr <= capacity
            &&& forall|k: int| 0 <= k < lo ==> span_end(#[trigger] s[k]) <= lo_addr
            &&& forall|k: int| hi <= k < s.len() ==> (#[trigger] s[k]).0 >= hi_addr
            &&& forall|k: int|
                lo <= k < hi ==> lo_addr <= (#[trigger] s[k]).0 && span_end(s[k]) <= hi_addr
            &&& forall|k: int| lo <= k < hi ==> intersects(#[trigger] s[k], offset, end)
            &&& forall|k: int|
                0 <= k < s.len() && !(lo <= k < hi) ==> !intersects(#[trigger] s[k], offset, end)
            &&& head.len() > 0 ==> lo_addr == s[lo].0 && covers(s[lo], offset - 1)
            &&& tail.len() > 0 ==> hi_addr == span_end(s[hi - 1]) && covers(s[hi - 1], end)
        }),
{
    let lo = count_ending_by(s, offset);
    let hi = count_starting_before(s, end);
    lemma_count_ending_by(s, offset);
    lemma_count_starting_before(s, end);
    let head = head_piece(s, lo, hi, offset);
    let tail = tail_piece(s, lo, hi, end);
    if hi < lo {
        assert(span_end(s[hi]) <= offset);
    }
    assert forall|k: int| lo <= k < s.len() implies span_end(#[trigger] s[k]) > offset by {
        if k > lo {
            assert(span_end(s[lo]) <= s[k].0);
        }
    }
    assert forall|k: int| hi <= k < s.len() implies (#[trigger] s[k]).0 >= end by {
        if k > hi {
            assert(span_end(s[hi]) <= s[k].0);
        }
    }
    if head.len() > 0 {
        assert(head.len() == offset - s[lo].0);
    }
    if tail.len() > 0 {
        assert(tail.len() == span_end(s[hi - 1]) - end);
    }
    let lo_addr = offset - head.len();
    let hi_addr = end + tail.len();
    assert forall|k: int| 0 <= k < lo implies span_end(#[trigger] s[k]) <= lo_addr by {
        if head.len() > 0 {
            assert(span_end(s[k]) <= s[lo].0);
        }
    }
    assert forall|k: int| hi <= k < s.len() implies (#[trigger] s[k]).0 >= hi_addr by {
        if tail.len() > 0 {
            assert(span_end(s[hi - 1]) <= s[k].0);
        }
    }
    assert forall|k: int| lo <= k < hi implies lo_addr <= (#[trigger] s[k]).0 && span_end(s[k])
        <= hi_addr by {
        if k > lo {
            assert(span_end(s[lo]) <= s[k].0);
        }
        if k < hi - 1 {
            assert(span_end(s[k]) <= s[hi - 1].0);
        }
    }
}

/// Writing `data` keeps the spans well formed, and the device then holds `data` at
/// `offset` and its former bytes elsewhere.
#[verifier::rlimit(40)]
pub proof fn lemma_write(s: Seq<Span>, capacity: int, offset: int, data: Seq<u8>)
    requires
        spans_wf(s, capacity),
        0 <= offset,
        offset + data.len() <= capacity,
    ensures
        spans_wf(spans_after_write(s, offset, data), capacity),
        materialize(spans_after_write(s, offset, data), capacity as nat) == programmed(
            materialize(s, capacity as nat),
            offset,
            data,
        ),
{
    if data.len() > 0 {
        let end = offset + data.len();
        let lo = count_ending_by(s, offset);
        let hi = count_starting_before(s, end);
        let head = head_piece(s, lo, hi, offset);
        let tail = tail_piece(s, lo, hi, end);
        lemma_overlap_window(s, capacity, offset, end);
        let lo_addr = offset - head.len();
        let hi_addr = end + tail.len();
        let bytes = head + data + tail;
        let mid: Seq<Span> = seq![(lo_addr, bytes)];
        assert(span_end(mid[0]) == hi_addr);
        lemma_splice(s, capacity, lo, hi, mid, lo_addr, hi_addr);
        let t = spans_after_write(s, offset, data);
        assert(t == s.take(lo) + mid + s.skip(hi));
        let before = materialize(s, capacity as nat);
        assert forall|a: int| 0 <= a < capacity implies #[trigger] materialize(t, capacity as nat)[a]
            == programmed(before, offset, data)[a] by {
            lemma_byte_at_wf(s, capacity, a);
            if lo_addr <= a < hi_addr {
                lemma_byte_at_covered(mid, 0, a);
                if a < offset {
                    assert(covers(s[lo], a));
                } else if a >= end {
                    assert(covers(s[hi - 1], a));
                }
            }
        }
        assert(materialize(t, capacity as nat) =~= programmed(before, offset, data));
    } else {
        assert(materialize(s, capacity as nat) =~= programmed(materialize(s, capacity as nat), offset, data));
    }
}

/// Erasing `[offset, offset + size)` keeps the spans well formed, and the device then
/// holds the sentinel there and its former bytes elsewhere.
#[verifier::rlimit(40)]
pub proof fn lemma_erase(s: Seq<Span>, capacity: int, offset: int, size: int)
    requires
        spans_wf(s, capacity),
        0 <= offset,
        0 <= size,
        offset + size <= capacity,
    ensures
        spans_wf(spans_after_erase(s, offset, size), capacity),
        materialize(spans_after_erase(s, offset, size), capacity as nat) == range_cleared(
            materialize(s, capacity as nat),
            offset,
            size,
        ),
{
    if size > 0 {
        let end = offset + size;
        let lo = count_ending_by(s, offset);
        let hi = count_starting_before(s, end);
        let head = head_piece(s, lo, hi, offset);
        let tail = tail_piece(s, lo, hi, end);
        lemma_overlap_window(s, capacity, offset, end);
        let lo_addr = offset - head.len();
        let hi_addr = end + tail.len();
        let before: Seq<Span> = if head.len() > 0 {
            seq![(offset - head.len(), head)]
        } else {
            Seq::empty()
        };
        let after: Seq<Span> = if tail.len() > 0 {
            seq![(end, tail)]
        } else {
            Seq::empty()
        };
        let mid = before + after;
        assert forall|k: int| 0 <= k < mid.len() implies #[trigger] mid[k] == (if k < before.len() {
            before[k]
        } else {
            after[k - before.len()]
        }) by {}
        assert(spans_wf(mid, capacity));
        lemma_splice(s, capacity, lo, hi, mid, lo_addr, hi_addr);
        let t = spans_after_erase(s, offset, size);
        assert(t == s.take(lo) + mid + s.skip(hi));
        let old_bytes = materialize(s, capacity as nat);
        assert forall|a: int| 0 <= a < capacity implies #[trigger] materialize(t, capacity as nat)[a]
            == range_cleared(old_bytes, offset, size)[a] by {
            lemma_byte_at_wf(s, capacity, a);
            if lo_addr <= a < hi_addr {
                lemma_byte_at_wf(mid, capacity, a);
                if a < offset {
                    assert(covers(s[lo], a));
                    assert(covers(mid[0], a));
                } else if a >= end {
                    assert(covers(s[hi - 1], a));
                    assert(covers(mid[mid.len() - 1], a));
                } else {
                    assert forall|k: int| 0 <= k < mid.len() implies !covers(#[trigger] mid[k], a) by {}
                }
            }
        }
        assert(materialize(t, capacity as nat) =~= range_cleared(old_bytes, offset, size));
    } else {
        assert(materialize(s, capacity as nat) =~= range_cleared(materialize(s, capacity as nat), offset, size));
    }
}


/// The spans after writing each of `regions`, a start address and its bytes, in turn.
pub open spec fn spans_after_writes(s: Seq<Span>, regions: Seq<Span>) -> Seq<Span>
    decreases regions.len(),
{
    if regions.len() == 0 {
        s
    } else {
        let r = regions.last();
        spans_after_write(spans_after_writes(s, regions.drop_last()), r.0, r.1)
    }
}

/// Whether the regions are non-empty and pairwise share no byte.
pub open spec fn regions_disjoint(regions: Seq<Span>) -> bool {
    &&& forall|i: int| 0 <= i < regions.len() ==> 0 <= (#[trigger] regions[i]).0 && regions[i].1.len() > 0
    &&& forall|i: int, j: int|
        0 <= i < regions.len() && 0 <= j < regions.len() && i != j ==> span_end(#[trigger] regions[i])
            <= (#[trigger] regions[j]).0 || span_end(regions[j]) <= regions[i].0
}

/// A write that overlaps no span adds one span holding the data, and keeps the others.
pub proof fn lemma_write_apart(s: Seq<Span>, offset: int, data: Seq<u8>)
    requires
        forall|k: int| 0 <= k < s.len() ==> (#[trigger] s[k]).1.len() > 0,
        data.len() > 0,
        forall|k: int| 0 <= k < s.len() ==> !intersects(#[trigger] s[k], offset, offset + data.len()),
    ensures
        ({
            let lo = count_ending_by(s, offset);
            &&& 0 <= lo <= s.len()
            &&& spans_after_write(s, offset, data) == s.take(lo) + seq![(offset, data)] + s.skip(lo)
        }),
{
    let end = offset + data.len();
    let lo = count_ending_by(s, offset);
    let hi = count_starting_before(s, end);
    lemma_count_ending_by(s, offset);
    lemma_count_starting_before(s, end);
    if hi < lo {
        assert(span_end(s[hi]) <= offset);
    }
    if lo < hi {
        assert(intersects(s[lo], offset, end));
    }
    assert(hi == lo);
    assert(head_piece(s, lo, hi, offset) =~= Seq::<u8>::empty());
    assert(tail_piece(s, lo, hi, end) =~= Seq::<u8>::empty());
    assert(Seq::<u8>::empty() + data + Seq::<u8>::empty() =~= data);
}

/// After disjoint writes into no spans, there is one span per region, each with the
/// address and length of one of the regions.
proof fn lemma_disjoint_writes_shape(regions: Seq<Span>)
    requires
        regions_disjoint(regions),
    ensures
        spans_after_writes(Seq::empty(), regions).len() == regions.len(),
        forall|c: int|
            0 <= c < spans_after_writes(Seq::empty(), regions).len() ==> exists|m: int|
                0 <= m < regions.len() && (#[trigger] spans_after_writes(Seq::empty(), regions)[c]).0
                    == regions[m].0 && spans_after_writes(Seq::empty(), regions)[c].1.len()
                    == regions[m].1.len(),
    decreases regions.len(),
{
    if regions.len() > 0 {
        let prev = regions.drop_last();
        let n = prev.len() as int;
        assert forall|i: int| 0 <= i < prev.len() implies #[trigger] prev[i] == regions[i] by {}
        assert(regions_disjoint(prev)) by {
            assert forall|i: int, j: int|
                0 <= i < prev.len() && 0 <= j < prev.len() && i != j implies span_end(
                #[trigger] prev[i],
            ) <= (#[trigger] prev[j]).0 || span_end(prev[j]) <= prev[i].0 by {
                assert(prev[i] == regions[i] && prev[j] == regions[j]);
            }
        }
        lemma_disjoint_writes_shape(prev);
        let t = spans_after_writes(Seq::empty(), prev);
        let r = regions.last();
        assert(r == regions[n]);
        assert forall|k: int| 0 <= k < t.len() implies (#[trigger] t[k]).1.len() > 0 && !intersects(
            t[k],
            r.0,
            r.0 + r.1.len(),
        ) by {
            let m = choose|m: int|
                0 <= m < prev.len() && t[k].0 == prev[m].0 && t[k].1.len() == prev[m].1.len();
            assert(prev[m] == regions[m]);
            assert(span_end(regions[m]) <= regions[n].0 || span_end(regions[n]) <= regions[m].0);
        }
        lemma_write_apart(t, r.0, r.1);
        let lo = count_ending_by(t, r.0);
        let u = spans_after_writes(Seq::empty(), regions);
        assert(u == t.take(lo) + seq![(r.0, r.1)] + t.skip(lo));
        assert forall|c: int| 0 <= c < u.len() implies exists|m: int|
            0 <= m < regions.len() && (#[trigger] u[c]).0 == regions[m].0 && u[c].1.len()
                == regions[m].1.len() by {
            if c < lo {
                assert(u[c] == t[c]);
                let m = choose|m: int|
                    0 <= m < prev.len() && t[c].0 == prev[m].0 && t[c].1.len() == prev[m].1.len();
                assert(prev[m] == regions[m]);
            } else if c == lo {
                assert(u[c] == regions[n]);
            } else {
                assert(u[c] == t[c - 1]);
                let m = choose|m: int|
                    0 <= m < prev.len() && t[c - 1].0 == prev[m].0 && t[c - 1].1.len()
                        == prev[m].1.len();
                assert(prev[m] == regions[m]);
            }
        }
    }
}

/// Writing disjoint regions into a device that holds no span leaves one span per region.
pub proof fn lemma_disjoint_writes_count(regions: Seq<Span>)
    requires
        regions_disjoint(regions),
    ensures
        spans_after_writes(Seq::empty(), regions).len() == regions.len(),
{
    lemma_disjoint_writes_shape(regions);
}

/// Writing over exactly the range of a span replaces its bytes and keeps the number of
/// spans.
pub proof fn lemma_exact_overlay(s: Seq<Span>, capacity: int, k: int, data: Seq<u8>)
    requires
        spans_wf(s, capacity),
        0 <= k < s.len(),
        data.len() == s[k].1.len(),
    ensures
        spans_after_write(s, s[k].0, data) == s.update(k, (s[k].0, data)),
        spans_after_write(s, s[k].0, data).len() == s.len(),
{
    let offset = s[k].0;
    let end = offset + data.len();
    lemma_count_ending_by(s, offset);
    lemma_count_starting_before(s, end);
    let lo = count_ending_by(s, offset);
    let hi = count_starting_before(s, end);
    if lo < k {
        assert(span_end(s[lo]) <= s[k].0);
    }
    if lo > k {
        assert(span_end(s[k]) <= offset);
    }
    assert(lo == k);
    if hi < k + 1 {
        if hi < k {
            assert(span_end(s[hi]) <= s[k].0);
        }
    }
    if hi > k + 1 {
        assert(span_end(s[k]) <= s[k + 1].0);
    }
    assert(hi == k + 1);
    assert(head_piece(s, lo, hi, offset) =~= Seq::<u8>::empty());
    assert(tail_piece(s, lo, hi, end) =~= Seq::<u8>::empty());
    assert(Seq::<u8>::empty() + data + Seq::<u8>::empty() =~= data);
    assert(spans_after_write(s, offset, data) =~= s.update(k, (offset, data)));
}

/// A write that covers the whole of a span leaves the written range to a single span,
/// which holds the data there; the number of spans does not grow.
pub proof fn lemma_covering_write(s: Seq<Span>, capacity: int, k: int, offset: int, data: Seq<u8>)
    requires
        spans_wf(s, capacity),
        0 <= k < s.len(),
        0 <= offset <= s[k].0,
        span_end(s[k]) <= offset + data.len() <= capacity,
    ensures
        ({
            let t = spans_after_write(s, offset, data);
            &&& t.len() <= s.len()
            &&& exists|m: int|
                0 <= m < t.len() && (#[trigger] t[m]).0 <= offset && offset + data.len() <= span_end(
                    t[m],
                ) && t[m].1.subrange(offset - t[m].0, offset - t[m].0 + data.len()) == data
                    && forall|j: int|
                    0 <= j < t.len() && j != m ==> !intersects(
                        #[trigger] t[j],
                        offset,
                        offset + data.len(),
                    )
        }),
{
    let end = offset + data.len();
    lemma_overlap_window(s, capacity, offset, end);
    let lo = count_ending_by(s, offset);
    let hi = count_starting_before(s, end);
    let head = head_piece(s, lo, hi, offset);
    let tail = tail_piece(s, lo, hi, end);
    assert(intersects(s[k], offset, end));
    assert(lo <= k < hi);
    let t = spans_after_write(s, offset, data);
    let mid: Span = (offset - head.len(), head + data + tail);
    assert(t == s.take(lo) + seq![mid] + s.skip(hi));
    assert(t[lo] == mid);
    assert(mid.1.subrange(offset - mid.0, offset - mid.0 + data.len()) =~= data);
    assert forall|j: int| 0 <= j < t.len() && j != lo implies !intersects(#[trigger] t[j], offset, end) by {
        if j < lo {
            assert(t[j] == s[j]);
        } else {
            assert(t[j] == s[j - lo - 1 + hi]);
        }
    }
}

} // verus!
