use vstd::prelude::*;

verus! {

/// One stripe colour of a towel pattern.
#[derive(Clone, Copy, Debug, PartialEq, Eq, Structural)]
pub enum Token {
    White,
    Blue,
    Black,
    Red,
    Green,
}

/// How many ways `s` splits into a run of available towels: one for the
/// empty design, else the sum over the towel that ends it.
pub open spec fn ways(avail: Seq<Seq<Token>>, s: Seq<Token>) -> nat
    decreases s.len(), s.len() + 1,
{
    if s.len() == 0 {
        1
    } else {
        split_sum(avail, s, s.len() as int)
    }
}

/// The ways whose final towel starts before position `m`.
pub open spec fn split_sum(avail: Seq<Seq<Token>>, s: Seq<Token>, m: int) -> nat
    decreases s.len(), m,
{
    if m <= 0 || m > s.len() {
        0
    } else {
        split_sum(avail, s, m - 1) + if avail.contains(s.subrange(m - 1, s.len() as int)) {
            ways(avail, s.take(m - 1))
        } else {
            0
        }
    }
}

/// What each table cell holds after the first `done` starts have spread
/// their counts: cell `j` counts the splits of the first `j` stripes
/// whose final towel starts before `done`.
pub open spec fn cell_partial(avail: Seq<Seq<Token>>, s: Seq<Token>, j: int, done: int) -> nat
    decreases done,
{
    if done <= 0 {
        if j == 0 {
            1
        } else {
            0
        }
    } else {
        cell_partial(avail, s, j, done - 1) + if done - 1 < j <= s.len() && avail.contains(
            s.subrange(done - 1, j),
        ) {
            ways(avail, s.take(done - 1))
        } else {
            0
        }
    }
}

/// Spreading more starts never shrinks a cell.
proof fn lemma_cell_partial_le(avail: Seq<Seq<Token>>, s: Seq<Token>, j: int, d: int, d2: int)
    requires
        0 <= d <= d2,
    ensures
        cell_partial(avail, s, j, d) <= cell_partial(avail, s, j, d2),
    decreases d2 - d,
{
    if d < d2 {
        lemma_cell_partial_le(avail, s, j, d, d2 - 1);
    }
}

/// Once every start below `j` has spread, cell `j` holds all the ways.
proof fn lemma_cell_complete(avail: Seq<Seq<Token>>, s: Seq<Token>, j: int, d: int)
    requires
        0 <= j <= d,
        j <= s.len(),
    ensures
        cell_partial(avail, s, j, d) == ways(avail, s.take(j)),
    decreases d,
{
    if d > j {
        lemma_cell_complete(avail, s, j, d - 1);
    } else if j == 0 {
        assert(s.take(0) =~= Seq::<Token>::empty());
    } else {
        lemma_cell_matches_split(avail, s, j, j);
        assert(s.take(j).len() == j);
    }
}

/// Below `j` the cell recursion mirrors the split recursion of the
/// prefix.
proof fn lemma_cell_matches_split(avail: Seq<Seq<Token>>, s: Seq<Token>, j: int, m: int)
    requires
        1 <= j <= s.len(),
        0 <= m <= j,
    ensures
        cell_partial(avail, s, j, m) == split_sum(avail, s.take(j), m),
    decreases m,
{
    if m > 0 {
        lemma_cell_matches_split(avail, s, j, m - 1);
        assert(s.take(j).subrange(m - 1, s.take(j).len() as int) =~= s.subrange(m - 1, j));
        assert(s.take(j).take(m - 1) =~= s.take(m - 1));
    }
}

/// The towel patterns on hand, the longest towel's length, and the
/// designs wanted.
#[derive(Debug)]
pub struct Puzzle {
    pub available: Vec<Vec<Token>>,
    pub max_available_len: usize,
    pub needed: Vec<Vec<Token>>,
}

impl Puzzle {
    /// The towels as mathematical sequences.
    pub open spec fn towels(self) -> Seq<Seq<Token>> {
        self.available@.map_values(|v: Vec<Token>| v@)
    }

    /// The length field really bounds every towel.
    pub open spec fn len_bound_ok(self) -> bool {
        forall|k: int|
            0 <= k < self.available@.len() ==> (#[trigger] self.available@[k])@.len()
                <= self.max_available_len
    }

    /// Whether some towel equals `pat`.
    fn has_towel(&self, pat: &[Token]) -> (r: bool)
        ensures
            r == self.towels().contains(pat@),
    {
        let n = self.available.len();
        let mut k: usize = 0;
        while k < n
            invariant
                n == self.available@.len(),
                k <= n,
                forall|q: int| 0 <= q < k ==> (#[trigger] self.available@[q])@ != pat@,
            decreases n - k,
        {
            let t = &self.available[k];
            if t.len() == pat.len() {
                let m = t.len();
                let mut c: usize = 0;
                let mut same = true;
                while c < m
                    invariant
                        m == t@.len() == pat@.len(),
                        c <= m,
                        same == (forall|q: int| 0 <= q < c ==> t@[q] == pat@[q]),
                    decreases m - c,
                {
                    if t[c] != pat[c] {
                        same = false;
                        assert(t@[c as int] != pat@[c as int]);
                    }
                    c += 1;
                }
                if same {
                    assert(t@ =~= pat@);
                    assert(self.towels()[k as int] == t@);
                    return true;
                }
                assert(t@ != pat@) by {
                    if t@ =~= pat@ {
                    }
                }
            }
            k += 1;
        }
        assert forall|q: int| 0 <= q < self.towels().len() implies self.towels()[q] != pat@ by {
            assert(self.towels()[q] == self.available@[q]@);
        }
        assert(!self.towels().contains(pat@));
        false
    }

    /// Count the ways the design splits into available towels.
    pub fn count_solutions(&self, needed: &[Token]) -> (r: usize)
        requires
            self.len_bound_ok(),
            needed@.len() + self.max_available_len < usize::MAX,
            forall|j: int|
                0 <= j <= needed@.len() ==> #[trigger] ways(self.towels(), needed@.take(j))
                    <= usize::MAX,
        ensures
            r == ways(self.towels(), needed@),
    {
        let ghost avail = self.towels();
        let ghost s = needed@;
        let n = needed.len();
        let mut count_map: Vec<usize> = Vec::new();
        count_map.push(1);
        let mut z: usize = 0;
        while z < n
            invariant
                z <= n,
                count_map@.len() == z + 1,
                count_map@[0] == 1,
                forall|j: int| 1 <= j <= z ==> (#[trigger] count_map@[j]) == 0,
            decreases n - z,
        {
            count_map.push(0);
            z += 1;
        }
        assert(forall|j: int|
            0 <= j <= n ==> (#[trigger] count_map@[j]) == cell_partial(avail, s, j, 0));
        let mut i: usize = 0;
        while i < n
            invariant
                n == s.len(),
                avail == self.towels(),
                s == needed@,
                self.len_bound_ok(),
                forall|j: int|
                    0 <= j <= needed@.len() ==> #[trigger] ways(avail, s.take(j)) <= usize::MAX,
                i <= n,
                n + self.max_available_len < usize::MAX,
                count_map@.len() == n + 1,
                forall|j: int|
                    0 <= j <= n ==> (#[trigger] count_map@[j]) == cell_partial(avail, s, j, i as int),
            decreases n - i,
        {
            proof {
                lemma_cell_complete(avail, s, i as int, i as int);
            }
            let count = count_map[i];
            assert(count == ways(avail, s.take(i as int)));
            let mut len: usize = 1;
            while len <= self.max_available_len
                invariant
                    n == s.len(),
                    avail == self.towels(),
                    s == needed@,
                    self.len_bound_ok(),
                    forall|j: int|
                        0 <= j <= needed@.len() ==> #[trigger] ways(avail, s.take(j))
                            <= usize::MAX,
                    i < n,
                    n + self.max_available_len < usize::MAX,
                    1 <= len <= self.max_available_len + 1,
                    count == ways(avail, s.take(i as int)),
                    count_map@.len() == n + 1,
                    forall|j: int|
                        0 <= j <= n && j <= i + len - 1 ==> (#[trigger] count_map@[j])
                            == cell_partial(avail, s, j, i as int + 1),
                    forall|j: int|
                        0 <= j <= n && j > i + len - 1 ==> (#[trigger] count_map@[j])
                            == cell_partial(avail, s, j, i as int),
                decreases self.max_available_len + 1 - len,
            {
                let j = i + len;
                if j <= n {
                    let mut piece: Vec<Token> = Vec::new();
                    let mut q: usize = i;
                    while q < j
                        invariant
                            i <= q <= j <= n == needed@.len(),
                            piece@ == needed@.subrange(i as int, q as int),
                        decreases j - q,
                    {
                        piece.push(needed[q]);
                        assert(piece@ =~= needed@.subrange(i as int, q + 1));
                        q += 1;
                    }
                    if self.has_towel(piece.as_slice()) {
                        proof {
                            lemma_cell_partial_le(avail, s, j as int, i as int + 1, j as int);
                            lemma_cell_complete(avail, s, j as int, j as int);
                        }
                        let cur = count_map[j];
                        assert(cur == cell_partial(avail, s, j as int, i as int));
                        assert(cell_partial(avail, s, j as int, i as int + 1) == cur + count);
                        let updated = cur + count;
                        count_map.set(j, updated);
                    } else {
                        assert(cell_partial(avail, s, j as int, i as int + 1) == cell_partial(
                            avail,
                            s,
                            j as int,
                            i as int,
                        ));
                    }
                } else {
                    assert(forall|jj: int|
                        i + len - 1 < jj <= n ==> cell_partial(avail, s, jj, i as int + 1)
                            == cell_partial(avail, s, jj, i as int));
                }
                assert(forall|jj: int|
                    0 <= jj <= n && jj <= i + len && jj != i + len ==> cell_partial(
                        avail,
                        s,
                        jj,
                        i as int + 1,
                    ) == cell_partial(avail, s, jj, i as int) || jj <= i + len - 1);
                len += 1;
            }
            proof {
                assert forall|j: int| 0 <= j <= n && j > i + self.max_available_len implies
                    cell_partial(avail, s, j, i as int + 1) == cell_partial(
                    avail,
                    s,
                    j,
                    i as int,
                ) by {
                    if i < j <= s.len() && avail.contains(s.subrange(i as int, j)) {
                        let k = choose|k: int|
                            0 <= k < avail.len() && avail[k] == s.subrange(i as int, j);
                        assert(self.available@[k]@.len() <= self.max_available_len);
                        assert(false);
                    }
                }
            }
            i += 1;
        }
        proof {
            lemma_cell_complete(avail, s, n as int, n as int);
            assert(s.take(n as int) == s);
        }
        let out = count_map[n];
        out
    }
}

} // verus!
