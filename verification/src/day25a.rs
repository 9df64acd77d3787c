use vstd::prelude::*;

verus! {

/// A lock: pin heights per column.
#[derive(Debug)]
pub struct Lock {
    pub heights: [usize; 5],
}

/// A key: cut heights per column.
#[derive(Debug)]
pub struct Key {
    pub heights: [usize; 5],
}

/// A lock and a key overlap when some column's heights together exceed
/// the five available rows.
pub open spec fn overlaps(lock: Lock, key: Key) -> bool {
    exists|i: int| 0 <= i < 5 && (#[trigger] lock.heights@[i]) + key.heights@[i] > 5
}

impl Lock {
    /// Whether the key overlaps this lock in any column.
    pub fn overlap(&self, key: &Key) -> (r: bool)
        ensures
            r == overlaps(*self, *key),
    {
        let mut i: usize = 0;
        while i < 5
            invariant
                i <= 5,
                forall|j: int| 0 <= j < i ==> (#[trigger] self.heights@[j]) + key.heights@[j] <= 5,
            decreases 5 - i,
        {
            let l = self.heights[i];
            let k = key.heights[i];
            if l > 5 || k > 5 - l {
                assert(self.heights@[i as int] + key.heights@[i as int] > 5);
                return true;
            }
            i += 1;
        }
        false
    }
}

/// All the locks and keys of the puzzle.
#[derive(Debug)]
pub struct Puzzle {
    pub locks: Vec<Lock>,
    pub keys: Vec<Key>,
}

/// How many keys among the first `j` fit `lock`.
pub open spec fn fits_prefix(lock: Lock, keys: Seq<Key>, j: int) -> int
    decreases j,
{
    if j <= 0 {
        0
    } else {
        fits_prefix(lock, keys, j - 1) + if !overlaps(lock, keys[j - 1]) {
            1int
        } else {
            0int
        }
    }
}

/// How many lock and key pairs fit, over the first `i` locks.
pub open spec fn pairs_prefix(locks: Seq<Lock>, keys: Seq<Key>, i: int) -> int
    decreases i,
{
    if i <= 0 {
        0
    } else {
        pairs_prefix(locks, keys, i - 1) + fits_prefix(locks[i - 1], keys, keys.len() as int)
    }
}

/// Per-lock fit counts are at most the number of keys.
proof fn lemma_fits_prefix_le(lock: Lock, keys: Seq<Key>, j: int)
    requires
        0 <= j,
    ensures
        0 <= fits_prefix(lock, keys, j) <= j,
    decreases j,
{
    if j > 0 {
        lemma_fits_prefix_le(lock, keys, j - 1);
    }
}

/// Pair counts over the first `i` locks are at most `i` times the number
/// of keys.
proof fn lemma_pairs_prefix_le(locks: Seq<Lock>, keys: Seq<Key>, i: int)
    requires
        0 <= i,
    ensures
        0 <= pairs_prefix(locks, keys, i) <= i * keys.len(),
    decreases i,
{
    if i > 0 {
        lemma_pairs_prefix_le(locks, keys, i - 1);
        lemma_fits_prefix_le(locks[i - 1], keys, keys.len() as int);
        assert((i - 1) * keys.len() + keys.len() == i * keys.len()) by (nonlinear_arith);
    }
}

impl Puzzle {
    /// Count the lock and key pairs that fit together.
    pub fn process(&self) -> (r: usize)
        requires
            self.locks@.len() * self.keys@.len() <= usize::MAX,
        ensures
            r == pairs_prefix(self.locks@, self.keys@, self.locks@.len() as int),
    {
        let nl = self.locks.len();
        let nk = self.keys.len();
        let mut out: usize = 0;
        let mut i: usize = 0;
        while i < nl
            invariant
                nl == self.locks@.len(),
                nk == self.keys@.len(),
                nl * nk <= usize::MAX,
                i <= nl,
                out == pairs_prefix(self.locks@, self.keys@, i as int),
                out <= i * nk,
        decreases nl - i,
        {
            proof {
                lemma_pairs_prefix_le(self.locks@, self.keys@, i as int);
                lemma_fits_prefix_le(self.locks@[i as int], self.keys@, nk as int);
                assert(i * nk + nk == (i + 1) * nk) by (nonlinear_arith);
                assert((i + 1) * nk <= nl * nk) by (nonlinear_arith)
                    requires
                        i + 1 <= nl,
                        nk >= 0,
                ;
            }
            let lock = &self.locks[i];
            let mut j: usize = 0;
            let ghost out0 = out;
            while j < nk
                invariant
                    nl == self.locks@.len(),
                    nk == self.keys@.len(),
                    i < nl,
                    j <= nk,
                    lock == &self.locks@[i as int],
                    out == out0 + fits_prefix(self.locks@[i as int], self.keys@, j as int),
                    out0 + nk <= usize::MAX,
                    out <= out0 + j,
                decreases nk - j,
            {
                if !lock.overlap(&self.keys[j]) {
                    out += 1;
                }
                j += 1;
            }
            i += 1;
        }
        out
    }
}

} // verus!
