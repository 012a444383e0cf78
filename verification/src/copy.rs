//! Copying a run of elements from one vector into another.
use vstd::prelude::*;

verus! {

/// Copies `src[from..from + count]` over `dst[at..at + count]`.
pub fn copy_run<T: Copy>(dst: &mut Vec<T>, at: usize, src: &Vec<T>, from: usize, count: usize)
    requires
        at + count <= old(dst)@.len(),
        from + count <= src@.len(),
    ensures
        final(dst)@ == old(dst)@.take(at as int) + src@.subrange(from as int, from + count)
            + old(dst)@.skip(at + count),
{
    let ghost d0 = dst@;
    for k in 0..count
        invariant
            at + count <= dst.len(),
            from + count <= src.len(),
            dst@.len() == d0.len(),
            forall|i: int| 0 <= i < at ==> dst@[i] == d0[i],
            forall|i: int| at + count <= i < d0.len() ==> dst@[i] == d0[i],
            forall|i: int| at <= i < at + k ==> dst@[i] == src@[from + i - at],
    {
        dst[at + k] = src[from + k];
    }
    assert(dst@ =~= d0.take(at as int) + src@.subrange(from as int, from + count) + d0.skip(
        at + count,
    ));
}

} // verus!
