use vstd::prelude::*;
use crate::flash_device::SENTINEL;

verus! {

/// A buffer of `n` erased bytes.
pub fn sentinel_bytes(n: usize) -> (r: Vec<u8>)
    ensures
        r@ == Seq::new(n as nat, |_i: int| SENTINEL),
{
    let mut r: Vec<u8> = Vec::new();
    let mut i: usize = 0;
    while i < n
        invariant
            i <= n,
            r@ == Seq::new(i as nat, |_k: int| SENTINEL),
        decreases n - i,
    {
        r.push(SENTINEL);
        i += 1;
        assert(r@ =~= Seq::new(i as nat, |_k: int| SENTINEL));
    }
    r
}

/// Appends `src[from..to]` to `dst`.
pub fn append_range(dst: &mut Vec<u8>, src: &[u8], from: usize, to: usize)
    requires
        from <= to <= src@.len(),
    ensures
        final(dst)@ == old(dst)@ + src@.subrange(from as int, to as int),
{
    let mut i: usize = from;
    while i < to
        invariant
            from <= i <= to <= src@.len(),
            dst@ == old(dst)@ + src@.subrange(from as int, i as int),
        decreases to - i,
    {
        dst.push(src[i]);
        i += 1;
        assert(dst@ =~= old(dst)@ + src@.subrange(from as int, i as int));
    }
}

/// Overwrites `dst[at..at + (to - from)]` with `src[from..to]`.
pub fn overwrite_range(dst: &mut Vec<u8>, at: usize, src: &[u8], from: usize, to: usize)
    requires
        from <= to <= src@.len(),
        at + (to - from) <= old(dst)@.len(),
    ensures
        final(dst)@ == Seq::new(
            old(dst)@.len(),
            |k: int|
                if at <= k < at + (to - from) {
                    src@[k - at + from]
                } else {
                    old(dst)@[k]
                },
        ),
{
    let n: usize = dst.len();
    let mut i: usize = from;
    while i < to
        invariant
            from <= i <= to <= src@.len(),
            at + (to - from) <= old(dst)@.len() == n,
            dst@ == Seq::new(
                old(dst)@.len(),
                |k: int|
                    if at <= k < at + (i - from) {
                        src@[k - at + from]
                    } else {
                        old(dst)@[k]
                    },
            ),
        decreases to - i,
    {
        dst.set(at + (i - from), src[i]);
        i += 1;
        assert(dst@ =~= Seq::new(
            old(dst)@.len(),
            |k: int|
                if at <= k < at + (i - from) {
                    src@[k - at + from]
                } else {
                    old(dst)@[k]
                },
        ));
    }
}

} // verus!
