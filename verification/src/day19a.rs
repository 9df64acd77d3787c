use vstd::prelude::*;

verus! {

/// One stripe colour of a towel pattern.
#[derive(Clone, Copy, Debug, PartialEq, Eq, Structural)]
pub enum Token {
    White,
    Blue,
    Black,
    Red,
    Green,
}

/// The design splits into exactly `k` available towels.
pub open spec fn can_split(avail: Seq<Seq<Token>>, s: Seq<Token>, k: nat) -> bool
    decreases k,
{
    if k == 0 {
        s.len() == 0
    } else {
        exists|t: Seq<Token>|
            #[trigger] avail.contains(t) && 1 <= t.len() <= s.len() && s.subrange(
                s.len() - t.len(),
                s.len() as int,
            ) == t && can_split(avail, s.take(s.len() - t.len()), (k - 1) as nat)
    }
}

/// A split into `k` towels needs at least `k` stripes.
proof fn lemma_split_len(avail: Seq<Seq<Token>>, s: Seq<Token>, k: nat)
    requires
        can_split(avail, s, k),
    ensures
        s.len() >= k,
    decreases k,
{
    if k > 0 {
        let t = choose|t: Seq<Token>|
            #[trigger] avail.contains(t) && 1 <= t.len() <= s.len() && s.subrange(
                s.len() - t.len(),
                s.len() as int,
            ) == t && can_split(avail, s.take(s.len() - t.len()), (k - 1) as nat);
        lemma_split_len(avail, s.take(s.len() - t.len()), (k - 1) as nat);
    }
}

/// Once a level holds no prefix at all, no later level holds any.
proof fn lemma_dead_levels(avail: Seq<Seq<Token>>, s: Seq<Token>, k: nat, m: nat)
    requires
        forall|p: int| 0 <= p <= s.len() ==> !can_split(avail, #[trigger] s.take(p), k),
        k <= m,
    ensures
        forall|p: int| 0 <= p <= s.len() ==> !can_split(avail, #[trigger] s.take(p), m),
    decreases m - k,
{
    if k < m {
        assert forall|p: int| 0 <= p <= s.len() implies !can_split(
            avail,
            #[trigger] s.take(p),
            (k + 1) as nat,
        ) by {
            let sp = s.take(p);
            if can_split(avail, sp, (k + 1) as nat) {
                let t = choose|t: Seq<Token>|
                    #[trigger] avail.contains(t) && 1 <= t.len() <= sp.len() && sp.subrange(
                        sp.len() - t.len(),
                        sp.len() as int,
                    ) == t && can_split(avail, sp.take(sp.len() - t.len()), k);
                assert(sp.take(sp.len() - t.len()) == s.take(p - t.len()));
                assert(!can_split(avail, s.take(p - t.len()), k));
            }
        }
        lemma_dead_levels(avail, s, (k + 1) as nat, m);
    }
}

/// The position `p` stands in the list.
pub open spec fn listed(v: Seq<usize>, p: int) -> bool {
    exists|j: int| 0 <= j < v.len() && v[j] == p
}

/// The towel patterns on hand, the longest towel's length, and the
/// designs wanted.
#[derive(Debug)]
pub struct Puzzle {
    pub available: Vec<Vec<Token>>,
    pub max_available_len: usize,
    pub needed: Vec<Vec<Token>>,
}

impl Puzzle {
    /// The towels as mathematical sequences.
    pub open spec fn towels(self) -> Seq<Seq<Token>> {
        self.available@.map_values(|v: Vec<Token>| v@)
    }

    /// The length field really bounds every towel.
    pub open spec fn len_bound_ok(self) -> bool {
        forall|k: int|
            0 <= k < self.available@.len() ==> (#[trigger] self.available@[k])@.len()
                <= self.max_available_len
    }

    /// Whether some towel equals `pat`.
    fn has_towel(&self, pat: &[Token]) -> (r: bool)
        ensures
            r == self.towels().contains(pat@),
    {
        let n = self.available.len();
        let mut k: usize = 0;
        while k < n
            invariant
                n == self.available@.len(),
                k <= n,
                forall|q: int| 0 <= q < k ==> (#[trigger] self.available@[q])@ != pat@,
            decreases n - k,
        {
            let t = &self.available[k];
            if t.len() == pat.len() {
                let m = t.len();
                let mut c: usize = 0;
                let mut same = true;
                while c < m
                    invariant
                        m == t@.len() == pat@.len(),
                        c <= m,
                        same == (forall|q: int| 0 <= q < c ==> t@[q] == pat@[q]),
                    decreases m - c,
                {
                    if t[c] != pat[c] {
                        same = false;
                        assert(t@[c as int] != pat@[c as int]);
                    }
                    c += 1;
                }
                if same {
                    assert(t@ =~= pat@);
                    assert(self.towels()[k as int] == t@);
                    return true;
                }
                assert(t@ != pat@) by {
                    if t@ =~= pat@ {
                    }
                }
            }
            k += 1;
        }
        assert forall|q: int| 0 <= q < self.towels().len() implies self.towels()[q] != pat@ by {
            assert(self.towels()[q] == self.available@[q]@);
        }
        assert(!self.towels().contains(pat@));
        false
    }

    /// The fewest towels that lay the design end to end, or nothing
    /// when no run of towels does.
    pub fn min_towels(&self, needed: &[Token]) -> (r: Option<usize>)
        requires
            self.len_bound_ok(),
            needed@.len() + self.max_available_len < usize::MAX,
        ensures
            match r {
                Some(k) => 1 <= k && can_split(self.towels(), needed@, k as nat) && (forall|
                    k2: int,
                |
                    0 <= k2 < k ==> !(#[trigger] can_split(self.towels(), needed@, k2 as nat))),
                None => forall|k2: int|
                    k2 >= 1 ==> !(#[trigger] can_split(self.towels(), needed@, k2 as nat)),
            },
    {
        let ghost avail = self.towels();
        let ghost s = needed@;
        let n = needed.len();
        let mut current: Vec<usize> = Vec::new();
        current.push(0);
        let mut steps: usize = 0;
        assert(s.take(0) =~= Seq::<Token>::empty());
        proof {
            assert(current@[0] == 0);
            assert(listed(current@, 0));
            assert forall|p: int|
                0 <= p < n && can_split(avail, #[trigger] s.take(p), 0nat) implies listed(
                current@,
                p,
            ) by {
                assert(s.take(p).len() == p);
            }
        }
        while current.len() > 0
            invariant
                avail == self.towels(),
                s == needed@,
                self.len_bound_ok(),
                n == s.len(),
                n + self.max_available_len < usize::MAX,
                steps <= n + 1,
                current@.len() > 0 ==> steps <= n,
                current@.len() == 0 ==> steps >= 1,
                forall|j: int|
                    0 <= j < current@.len() ==> (#[trigger] current@[j]) < n || (current@[j] == 0
                        && n == 0),
                forall|j: int|
                    0 <= j < current@.len() ==> can_split(
                        avail,
                        s.take((#[trigger] current@[j]) as int),
                        steps as nat,
                    ),
                forall|p: int|
                    0 <= p < n && can_split(avail, #[trigger] s.take(p), steps as nat) ==> listed(
                        current@,
                        p,
                    ),
                forall|k2: int| 1 <= k2 <= steps ==> !(#[trigger] can_split(avail, s, k2 as nat)),
            decreases n + 1 - steps,
        {
            proof {
                if n > 0 {
                    lemma_split_len(avail, s.take(current@[0] as int), steps as nat);
                }
            }
            let mut next: Vec<usize> = Vec::new();
            let cn = current.len();
            let mut ci: usize = 0;
            while ci < cn
                invariant
                    avail == self.towels(),
                    s == needed@,
                    self.len_bound_ok(),
                    n == s.len(),
                    n + self.max_available_len < usize::MAX,
                    steps <= n,
                    cn == current@.len(),
                    ci <= cn,
                    forall|j: int|
                        0 <= j < current@.len() ==> (#[trigger] current@[j]) < n || (current@[j]
                            == 0 && n == 0),
                    forall|j: int|
                        0 <= j < current@.len() ==> can_split(
                            avail,
                            s.take((#[trigger] current@[j]) as int),
                            steps as nat,
                        ),
                    forall|k2: int| 1 <= k2 <= steps ==> !(#[trigger] can_split(avail, s, k2 as nat)),
                    forall|j: int|
                        0 <= j < next@.len() ==> (#[trigger] next@[j]) < n && can_split(
                            avail,
                            s.take(next@[j] as int),
                            (steps + 1) as nat,
                        ),
                    forall|j: int, q: int|
                        0 <= j < ci && (#[trigger] current@[j]) < q <= n && q - current@[j]
                            <= self.max_available_len && avail.contains(
                            #[trigger] s.subrange(current@[j] as int, q),
                        ) ==> (q < n && listed(next@, q)) || (q == n && false),
                decreases cn - ci,
            {
                let i = current[ci];
                let mut len: usize = 1;
                while len <= self.max_available_len
                    invariant
                        avail == self.towels(),
                        s == needed@,
                        self.len_bound_ok(),
                        n == s.len(),
                        n + self.max_available_len < usize::MAX,
                        steps <= n,
                        cn == current@.len(),
                        ci < cn,
                        i == current@[ci as int],
                        i < n || (i == 0 && n == 0),
                        1 <= len <= self.max_available_len + 1,
                        forall|j: int|
                            0 <= j < current@.len() ==> can_split(
                                avail,
                                s.take((#[trigger] current@[j]) as int),
                                steps as nat,
                            ),
                        forall|k2: int| 1 <= k2 <= steps ==> !(#[trigger] can_split(avail, s, k2 as nat)),
                        forall|j: int|
                            0 <= j < next@.len() ==> (#[trigger] next@[j]) < n && can_split(
                                avail,
                                s.take(next@[j] as int),
                                (steps + 1) as nat,
                            ),
                        forall|j: int, q: int|
                            0 <= j < ci && (#[trigger] current@[j]) < q <= n && q - current@[j]
                                <= self.max_available_len && avail.contains(
                                #[trigger] s.subrange(current@[j] as int, q),
                            ) ==> (q < n && listed(next@, q)),
                        forall|q: int|
                            i < q <= n && q - i < len && avail.contains(
                                #[trigger] s.subrange(i as int, q),
                            ) ==> (q < n && listed(next@, q)),
                    decreases self.max_available_len + 1 - len,
                {
                    if i + len <= n {
                        let q = i + len;
                        let mut piece: Vec<Token> = Vec::new();
                        let mut w: usize = i;
                        while w < q
                            invariant
                                i <= w <= q <= n == needed@.len(),
                                piece@ == needed@.subrange(i as int, w as int),
                            decreases q - w,
                        {
                            piece.push(needed[w]);
                            assert(piece@ =~= needed@.subrange(i as int, w + 1));
                            w += 1;
                        }
                        if self.has_towel(piece.as_slice()) {
                            proof {
                                assert(s.take(q as int).subrange(
                                    q - len,
                                    q as int,
                                ) =~= s.subrange(i as int, q as int));
                                assert(s.take(q as int).take(q - len) =~= s.take(i as int));
                                assert(can_split(avail, s.take(q as int), (steps + 1) as nat))
                                    by {
                                    assert(avail.contains(s.take(q as int).subrange(
                                        s.take(q as int).len() - len,
                                        s.take(q as int).len() as int,
                                    )));
                                }
                            }
                            if q == n {
                                proof {
                                    assert(s.take(n as int) == s);
                                    assert(s.len() > 0);
                                    assert(!can_split(avail, s, 0));
                                }
                                return Some(steps + 1);
                            }
                            let nn = next.len();
                            let mut dup = false;
                            let mut dj: usize = 0;
                            while dj < nn && !dup
                                invariant
                                    nn == next@.len(),
                                    dj <= nn,
                                    dup ==> listed(next@, q as int),
                                    !dup ==> forall|jj: int|
                                        0 <= jj < dj ==> (#[trigger] next@[jj]) != q,
                                decreases nn - dj, (if dup { 0int } else { 1int }),
                            {
                                if next[dj] == q {
                                    dup = true;
                                } else {
                                    dj += 1;
                                }
                            }
                            if !dup {
                                let ghost nb = next@;
                                next.push(q);
                                assert(forall|jj: int|
                                    0 <= jj < nb.len() ==> next@[jj] == nb[jj]);
                                assert(next@[next@.len() - 1] == q);
                            }
                            assert(listed(next@, q as int));
                        }
                    }
                    len += 1;
                }
                proof {
                    assert forall|q: int|
                        i < q <= n && q - i <= self.max_available_len && avail.contains(
                            #[trigger] s.subrange(i as int, q),
                        ) implies (q < n && listed(next@, q)) by {
                    }
                }
                ci += 1;
            }
            proof {
                assert forall|p: int|
                    0 <= p < n && can_split(avail, #[trigger] s.take(p), (steps + 1) as nat)
                        implies listed(next@, p) by {
                    let sp = s.take(p);
                    let t = choose|t: Seq<Token>|
                        #[trigger] avail.contains(t) && 1 <= t.len() <= sp.len() && sp.subrange(
                            sp.len() - t.len(),
                            sp.len() as int,
                        ) == t && can_split(avail, sp.take(sp.len() - t.len()), steps as nat);
                    let p0 = p - t.len();
                    assert(sp.take(sp.len() - t.len()) == s.take(p0));
                    assert(listed(current@, p0));
                    let j = choose|j: int| 0 <= j < current@.len() && current@[j] == p0;
                    assert(sp.subrange(sp.len() - t.len(), sp.len() as int) == s.subrange(p0, p));
                    assert(t.len() <= self.max_available_len) by {
                        let ti = choose|ti: int| 0 <= ti < avail.len() && avail[ti] == t;
                        assert(self.available@[ti]@.len() <= self.max_available_len);
                    }
                    assert(avail.contains(s.subrange(current@[j] as int, p)));
                }
                assert(!can_split(avail, s, (steps + 1) as nat)) by {
                    if can_split(avail, s, (steps + 1) as nat) {
                        let t = choose|t: Seq<Token>|
                            #[trigger] avail.contains(t) && 1 <= t.len() <= s.len() && s.subrange(
                                s.len() - t.len(),
                                s.len() as int,
                            ) == t && can_split(avail, s.take(s.len() - t.len()), steps as nat);
                        let p0 = n - t.len();
                        assert(listed(current@, p0));
                        let j = choose|j: int| 0 <= j < current@.len() && current@[j] == p0;
                        assert(t.len() <= self.max_available_len) by {
                            let ti = choose|ti: int| 0 <= ti < avail.len() && avail[ti] == t;
                            assert(self.available@[ti]@.len() <= self.max_available_len);
                        }
                        assert(s.subrange(s.len() - t.len(), s.len() as int) == s.subrange(
                            current@[j] as int,
                            n as int,
                        ));
                        assert(avail.contains(s.subrange(current@[j] as int, n as int)));
                        assert(false);
                    }
                }
                if next@.len() > 0 {
                    lemma_split_len(avail, s.take(next@[0] as int), (steps + 1) as nat);
                }
            }
            current = next;
            steps += 1;
        }
        proof {
            assert forall|k2: int| k2 >= 1 implies !(#[trigger] can_split(avail, s, k2 as nat)) by {
                if k2 <= steps {
                } else {
                    assert(forall|p: int|
                        0 <= p <= s.len() ==> !can_split(avail, #[trigger] s.take(p), steps as nat))
                        by {
                        assert forall|p: int|
                            0 <= p <= s.len() implies !can_split(
                                avail,
                                #[trigger] s.take(p),
                                steps as nat,
                            ) by {
                            if p < n && can_split(avail, s.take(p), steps as nat) {
                                assert(listed(current@, p));
                                assert(false);
                            }
                            if p == n && can_split(avail, s.take(p), steps as nat) {
                                assert(s.take(n as int) == s);
                                assert(1 <= steps <= steps);
                                let k3: int = steps as int;
                                assert(1 <= k3 <= steps);
                                assert(!can_split(avail, s, k3 as nat));
                                assert(false);
                            }
                        }
                    }
                    lemma_dead_levels(avail, s, steps as nat, k2 as nat);
                    assert(s.take(n as int) == s);
                }
            }
        }
        None
    }
}

} // verus!
