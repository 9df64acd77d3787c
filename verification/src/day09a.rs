use vstd::prelude::*;
use vstd::pervasive::VecAdditionalExecFns;

verus! {

/// The index of the first free block at or after `i`, or the length when
/// there is none.
pub open spec fn first_free_from(s: Seq<Option<usize>>, i: int) -> int
    decreases s.len() - i,
{
    if i < 0 || i >= s.len() {
        s.len() as int
    } else if s[i] is None {
        i
    } else {
        first_free_from(s, i + 1)
    }
}

/// The index of the last file block at or before `i`, or -1 when there
/// is none.
pub open spec fn last_file_from(s: Seq<Option<usize>>, i: int) -> int
    decreases i + 1,
{
    if i < 0 || i >= s.len() {
        -1
    } else if s[i] is Some {
        i
    } else {
        last_file_from(s, i - 1)
    }
}

/// Up to `fuel` single-block moves: each moves the last file block into
/// the first free block, until no free block lies before a file block.
pub open spec fn compact_iter(s: Seq<Option<usize>>, fuel: nat) -> Seq<Option<usize>>
    decreases fuel,
{
    if fuel == 0 {
        s
    } else {
        let w = first_free_from(s, 0);
        let r = last_file_from(s, s.len() - 1);
        if w > r {
            s
        } else {
            compact_iter(s.update(w, s[r]).update(r, None), (fuel - 1) as nat)
        }
    }
}

/// The disc with every file block moved, one at a time, from the end
/// into the first free block, until the files sit in one leading run.
pub open spec fn compacted(s: Seq<Option<usize>>) -> Seq<Option<usize>> {
    compact_iter(s, s.len())
}

/// Below a free block whose predecessors are all files lies no other
/// free block.
proof fn lemma_first_free_at(s: Seq<Option<usize>>, i: int, w: int)
    requires
        0 <= i <= w <= s.len(),
        forall|j: int| i <= j < w ==> s[j] is Some,
        w < s.len() ==> s[w] is None,
    ensures
        first_free_from(s, i) == if w < s.len() {
            w
        } else {
            s.len() as int
        },
    decreases w - i,
{
    if i < w {
        lemma_first_free_at(s, i + 1, w)
    }
}

/// Above a file block whose successors are all free lies no other file
/// block.
proof fn lemma_last_file_at(s: Seq<Option<usize>>, i: int, r: int)
    requires
        -1 <= r <= i < s.len(),
        forall|j: int| r < j <= i ==> s[j] is None,
        r >= 0 ==> s[r] is Some,
    ensures
        last_file_from(s, i) == r,
    decreases i - r,
{
    if r < i {
        lemma_last_file_at(s, i - 1, r)
    }
}

/// Compact the disc in place: repeatedly move the last file block into
/// the first free block, until all files form one leading run.
pub fn compact_disc(disc: &mut Vec<Option<usize>>)
    requires
        exists|i: int| 0 <= i < old(disc)@.len() && old(disc)@[i] is Some,
        exists|i: int| 0 <= i < old(disc)@.len() && old(disc)@[i] is None,
    ensures
        final(disc)@ == compacted(old(disc)@),
{
    let ghost orig = disc@;
    let ghost n = disc@.len() as int;
    let ghost mut fuel: int = n;
    let mut write_head: usize = 0;
    let mut read_head: usize = disc.len() - 1;
    let mut done = false;
    while !done
        invariant
            disc@.len() == n,
            n >= 1,
            write_head <= n,
            read_head < n,
            forall|i: int| 0 <= i < write_head ==> disc@[i] is Some,
            forall|i: int| read_head < i < n ==> disc@[i] is None,
            exists|i: int| write_head <= i < n && disc@[i] is None,
            exists|i: int| 0 <= i <= read_head && disc@[i] is Some,
            compact_iter(orig, orig.len()) == compact_iter(disc@, fuel as nat),
            fuel >= read_head + 1 - write_head,
            fuel >= 0,
            done ==> compact_iter(disc@, fuel as nat) == disc@,
        decreases fuel, (if done { 0int } else { 1int }),
    {
        while disc[write_head].is_some()
            invariant
                disc@.len() == n,
                write_head < n,
                forall|i: int| 0 <= i < write_head ==> disc@[i] is Some,
                exists|i: int| write_head <= i < n && disc@[i] is None,
            decreases n - write_head,
        {
            write_head += 1;
            assert(write_head < n) by {
                let i = choose|i: int| write_head - 1 <= i < n && disc@[i] is None;
                assert(i >= write_head);
            }
        }
        while disc[read_head].is_none()
            invariant
                disc@.len() == n,
                read_head < n,
                forall|i: int| read_head < i < n ==> disc@[i] is None,
                exists|i: int| 0 <= i <= read_head && disc@[i] is Some,
            decreases read_head,
        {
            assert(read_head > 0) by {
                let i = choose|i: int| 0 <= i <= read_head && disc@[i] is Some;
                assert(i < read_head);
            }
            read_head -= 1;
        }
        proof {
            lemma_first_free_at(disc@, 0, write_head as int);
            lemma_last_file_at(disc@, n - 1, read_head as int);
        }
        if write_head > read_head {
            proof {
                assert(compact_iter(disc@, fuel as nat) == disc@);
            }
            done = true;
        } else {
            assert(write_head < read_head);
            let moved = disc[read_head];
            let ghost before = disc@;
            disc.set(write_head, moved);
            disc.set(read_head, None);
            proof {
                assert(disc@ == before.update(write_head as int, before[read_head as int]).update(
                    read_head as int,
                    None,
                ));
                assert(compact_iter(before, fuel as nat) == compact_iter(
                    disc@,
                    (fuel - 1) as nat,
                ));
                fuel = fuel - 1;
            }
            write_head += 1;
            read_head -= 1;
        }
    }
    assert(compacted(orig) == disc@);
}

/// The disc that the digit string from position `k` on describes: even
/// positions lay down a file's blocks, odd positions free blocks.
pub open spec fn disc_of_from(digits: Seq<usize>, k: int) -> Seq<Option<usize>>
    decreases digits.len() - k,
{
    if k < 0 || k >= digits.len() {
        Seq::<Option<usize>>::empty()
    } else {
        let block = if k % 2 == 0 {
            Some((k / 2) as usize)
        } else {
            None
        };
        Seq::new(digits[k] as nat, |i: int| block) + disc_of_from(digits, k + 1)
    }
}

/// The disc the whole digit string describes.
pub open spec fn disc_of(digits: Seq<usize>) -> Seq<Option<usize>> {
    disc_of_from(digits, 0)
}

/// One dense puzzle input: the alternating file and free lengths.
#[derive(Debug)]
pub struct Puzzle {
    pub digits: Vec<usize>,
}

impl Puzzle {
    /// Lay the disc out block by block from the digit string.
    pub fn create_disc(&self) -> (r: Vec<Option<usize>>)
        requires
            self.digits@.len() <= 0x7fffffff,
            forall|k: int| 0 <= k < self.digits@.len() ==> (#[trigger] self.digits@[k]) <= 9,
        ensures
            r@ == disc_of(self.digits@),
    {
        let n = self.digits.len();
        let mut disc: Vec<Option<usize>> = Vec::new();
        let mut k: usize = 0;
        let mut id: usize = 0;
        while k < n
            invariant
                n == self.digits@.len(),
                n <= 0x7fffffff,
                forall|j: int| 0 <= j < n ==> (#[trigger] self.digits@[j]) <= 9,
                k <= n,
                id == (k + 1) / 2,
                disc@ + disc_of_from(self.digits@, k as int) == disc_of(self.digits@),
                disc@.len() <= k * 9,
            decreases n - k,
        {
            let ghost before = disc@;
            let block = if k % 2 == 0 {
                Some(id)
            } else {
                None
            };
            let count = self.digits[k];
            let mut c: usize = 0;
            while c < count
                invariant
                    c <= count,
                    disc@ == before + Seq::new(c as nat, |i: int| block),
                decreases count - c,
            {
                disc.push(block);
                assert(disc@ =~= before + Seq::new(c as nat + 1, |i: int| block));
                c += 1;
            }
            if k % 2 == 0 {
                id += 1;
            }
            k += 1;
            proof {
                assert(disc@ + disc_of_from(self.digits@, k as int) =~= before + disc_of_from(
                    self.digits@,
                    k as int - 1,
                ));
            }
        }
        assert(disc_of_from(self.digits@, n as int) =~= Seq::<Option<usize>>::empty());
        assert(disc@ =~= disc@ + disc_of_from(self.digits@, n as int));
        disc
    }
}

/// The checksum of the first `i` blocks: each file block's position
/// times its file id.
pub open spec fn checksum_prefix(s: Seq<Option<usize>>, i: int) -> int
    decreases i,
{
    if i <= 0 {
        0
    } else {
        checksum_prefix(s, i - 1) + match s[i - 1] {
            Some(id) => (i - 1) * id,
            None => 0,
        }
    }
}

/// Checksum prefixes never shrink.
proof fn lemma_checksum_prefix_bound(s: Seq<Option<usize>>, i: int, n: int)
    requires
        0 <= i <= n,
    ensures
        checksum_prefix(s, i) <= checksum_prefix(s, n),
    decreases n - i,
{
    if i < n {
        match s[i] {
            Some(id) => {
                assert(i * id >= 0) by (nonlinear_arith)
                    requires
                        i >= 0,
                        id >= 0,
                ;
            },
            None => {},
        }
        lemma_checksum_prefix_bound(s, i + 1, n);
    }
}

/// The checksum of a disc: the sum over its file blocks of position
/// times file id.
pub fn checksum(disc: &Vec<Option<usize>>) -> (r: usize)
    requires
        checksum_prefix(disc@, disc@.len() as int) <= usize::MAX,
    ensures
        r == checksum_prefix(disc@, disc@.len() as int),
{
    let n = disc.len();
    let mut out: usize = 0;
    let mut i: usize = 0;
    while i < n
        invariant
            n == disc@.len(),
            i <= n,
            out == checksum_prefix(disc@, i as int),
            checksum_prefix(disc@, n as int) <= usize::MAX,
        decreases n - i,
    {
        proof {
            lemma_checksum_prefix_bound(disc@, i as int + 1, n as int);
            lemma_checksum_prefix_bound(disc@, 0, i as int);
        }
        match disc[i] {
            Some(id) => {
                out += i * id;
            },
            None => {},
        }
        i += 1;
    }
    out
}

} // verus!
