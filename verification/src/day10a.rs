use vstd::prelude::*;
use vstd::string::StringSliceAdditionalSpecFns;
use crate::day10b;
use crate::day10b::{heights_ok, height_input_ok};
use crate::grid::{cells, ByteGrid};
use crate::text::lines_of;

verus! {

/// An upward trail from this cell reaches the summit at `(ei, ej)`:
/// a summit reaches itself, and any other cell reaches whatever a
/// neighbour one step higher reaches.
pub open spec fn reaches(g: Seq<Seq<u8>>, i: int, j: int, ei: int, ej: int) -> bool
    decreases 9 - g[i][j],
    when 0 <= i < g.len() && 0 <= j < g[i].len() && heights_ok(g)
{
    let v = g[i][j];
    if v == 9 {
        ei == i && ej == j
    } else {
        ||| (i + 1 < g.len() && g[i + 1][j] == v + 1 && reaches(g, i + 1, j, ei, ej))
        ||| (i >= 1 && g[i - 1][j] == v + 1 && reaches(g, i - 1, j, ei, ej))
        ||| (j + 1 < g[i].len() && g[i][j + 1] == v + 1 && reaches(g, i, j + 1, ei, ej))
        ||| (j >= 1 && g[i][j - 1] == v + 1 && reaches(g, i, j - 1, ei, ej))
    }
}

/// The position `(a, b)` stands in the list.
pub open spec fn listed_pos(v: Seq<[usize; 2]>, a: int, b: int) -> bool {
    exists|q: int| 0 <= q < v.len() && (#[trigger] v[q])@[0] == a && v[q]@[1] == b
}

/// The height map.
#[derive(Debug)]
pub struct Puzzle {
    pub map: ByteGrid,
}

/// Put a summit into the list unless it already stands there.
fn insert_end(ends: &mut Vec<[usize; 2]>, p: [usize; 2])
    ensures
        forall|a: int, b: int|
            #[trigger] listed_pos(final(ends)@, a, b) ==> listed_pos(old(ends)@, a, b) || (a
                == p@[0] && b == p@[1]),
        forall|a: int, b: int|
            #[trigger] listed_pos(old(ends)@, a, b) ==> listed_pos(final(ends)@, a, b),
        listed_pos(final(ends)@, p@[0] as int, p@[1] as int),
{
    let n = ends.len();
    let mut q: usize = 0;
    while q < n
        invariant
            n == ends@.len(),
            q <= n,
            forall|w: int| 0 <= w < q ==> !((#[trigger] ends@[w])@[0] == p@[0] && ends@[w]@[1] == p@[1]),
        decreases n - q,
    {
        if ends[q][0] == p[0] && ends[q][1] == p[1] {
            assert(listed_pos(ends@, p@[0] as int, p@[1] as int)) by {
                assert(ends@[q as int]@[0] == p@[0] && ends@[q as int]@[1] == p@[1]);
            }
            return ;
        }
        q += 1;
    }
    let ghost before = ends@;
    ends.push(p);
    proof {
        assert(ends@[ends@.len() - 1] == p);
        assert(forall|w: int| 0 <= w < before.len() ==> ends@[w] == before[w]);
        assert(listed_pos(ends@, p@[0] as int, p@[1] as int)) by {
            assert(ends@[ends@.len() - 1]@[0] == p@[0] && ends@[ends@.len() - 1]@[1] == p@[1]);
        }
        assert forall|a: int, b: int| #[trigger] listed_pos(ends@, a, b) implies listed_pos(
            before,
            a,
            b,
        ) || (a == p@[0] && b == p@[1]) by {
            let w = choose|w: int|
                0 <= w < ends@.len() && (#[trigger] ends@[w])@[0] == a && ends@[w]@[1] == b;
            if w < before.len() {
                assert(before[w]@[0] == a && before[w]@[1] == b);
                assert(listed_pos(before, a, b));
            }
        }
        assert forall|a: int, b: int| #[trigger] listed_pos(before, a, b) implies listed_pos(
            ends@,
            a,
            b,
        ) by {
            let w = choose|w: int|
                0 <= w < before.len() && (#[trigger] before[w])@[0] == a && before[w]@[1] == b;
            assert(ends@[w]@[0] == a && ends@[w]@[1] == b);
        }
    }
}

impl Puzzle {
    /// Collect the summits of height 9 that upward trails from `pos`
    /// reach, each summit once.  Cells marked walked are skipped; the
    /// marks come back as they went in.
    #[verifier::rlimit(100)]
    pub fn find_trail_ends(&self, pos: [usize; 2], value: usize, walked: &mut ByteGrid) -> (r: Vec<
        [usize; 2],
    >)
        requires
            heights_ok(cells(self.map)),
            cells(*old(walked)).len() == cells(self.map).len(),
            forall|i: int|
                0 <= i < cells(self.map).len() ==> (#[trigger] cells(*old(walked))[i]).len()
                    == cells(self.map)[i].len(),
            pos@[0] < cells(self.map).len(),
            pos@[1] < cells(self.map)[0].len(),
            value == cells(self.map)[pos@[0] as int][pos@[1] as int],
            forall|i: int, j: int|
                0 <= i < cells(self.map).len() && 0 <= j < cells(self.map)[i].len() && (
                #[trigger] cells(*old(walked))[i][j]) != 0 ==> cells(self.map)[i][j] <= value,
        ensures
            cells(*final(walked)) == cells(*old(walked)),
            forall|a: int, b: int|
                #![trigger listed_pos(r@, a, b)]
                #![trigger reaches(cells(self.map), pos@[0] as int, pos@[1] as int, a, b)]
                listed_pos(r@, a, b) == reaches(
                    cells(self.map),
                    pos@[0] as int,
                    pos@[1] as int,
                    a,
                    b,
                ),
        decreases 9 - value,
    {
        let ghost g = cells(self.map);
        let (nrows, ncols) = self.map.dim();
        if value == 9 {
            let mut ends: Vec<[usize; 2]> = Vec::new();
            ends.push(pos);
            proof {
                assert(ends@[0] == pos);
                assert forall|a: int, b: int|
                    #[trigger] listed_pos(ends@, a, b) == reaches(
                        g,
                        pos@[0] as int,
                        pos@[1] as int,
                        a,
                        b,
                    ) by {
                    if listed_pos(ends@, a, b) {
                        let w = choose|w: int|
                            0 <= w < ends@.len() && (#[trigger] ends@[w])@[0] == a && ends@[w]@[1]
                                == b;
                    }
                    if a == pos@[0] && b == pos@[1] {
                        assert(ends@[0]@[0] == a && ends@[0]@[1] == b);
                    }
                }
            }
            return ends;
        }
        assert(value < 9);
        let mut ends: Vec<[usize; 2]> = Vec::new();
        let ghost i0 = pos@[0] as int;
        let ghost j0 = pos@[1] as int;
        let ghost down_ok = i0 + 1 < g.len() && g[i0 + 1][j0] == value + 1;
        let ghost up_ok = i0 >= 1 && g[i0 - 1][j0] == value + 1;
        let ghost right_ok = j0 + 1 < g[i0].len() && g[i0][j0 + 1] == value + 1;
        let ghost left_ok = j0 >= 1 && g[i0][j0 - 1] == value + 1;
        if pos[0] + 1 < nrows {
            let new_pos = [pos[0] + 1, pos[1]];
            assert(new_pos@[0] == i0 + 1 && new_pos@[1] == j0);
            if walked.get(new_pos[0], new_pos[1]) == 0 {
                let new_value = self.map.get(new_pos[0], new_pos[1]);
                if new_value as usize == value + 1 {
                    walked.set(new_pos[0], new_pos[1], 1);
                    let child = self.find_trail_ends(new_pos, new_value as usize, walked);
                    walked.set(new_pos[0], new_pos[1], 0);
                    proof {
                        assert(cells(*walked) =~~= cells(*old(walked)));
                        assert(forall|a: int, b: int|
                            #![trigger listed_pos(child@, a, b)]
                            #![trigger reaches(g, i0 + 1, j0, a, b)]
                            listed_pos(child@, a, b) == reaches(g, i0 + 1, j0, a, b));
                    }
                    merge_ends(&mut ends, &child);
                }
            }
        }
        assert forall|a: int, b: int|
            #![trigger listed_pos(ends@, a, b)]
            #![trigger reaches(g, i0 + 1, j0, a, b)]
            listed_pos(ends@, a, b) == (down_ok && reaches(g, i0 + 1, j0, a, b)) by {
            if down_ok {
                assert(cells(*old(walked))[i0 + 1][j0] == 0 || g[i0 + 1][j0] <= value);
            }
            if listed_pos(ends@, a, b) {
                let w = choose|w: int|
                    0 <= w < ends@.len() && (#[trigger] ends@[w])@[0] == a && ends@[w]@[1] == b;
            }
        }
        if pos[0] > 0 {
            let new_pos = [pos[0] - 1, pos[1]];
            assert(new_pos@[0] == i0 - 1 && new_pos@[1] == j0);
            if walked.get(new_pos[0], new_pos[1]) == 0 {
                let new_value = self.map.get(new_pos[0], new_pos[1]);
                if new_value as usize == value + 1 {
                    walked.set(new_pos[0], new_pos[1], 1);
                    let child = self.find_trail_ends(new_pos, new_value as usize, walked);
                    walked.set(new_pos[0], new_pos[1], 0);
                    proof {
                        assert(cells(*walked) =~~= cells(*old(walked)));
                        assert(forall|a: int, b: int|
                            #![trigger listed_pos(child@, a, b)]
                            #![trigger reaches(g, i0 - 1, j0, a, b)]
                            listed_pos(child@, a, b) == reaches(g, i0 - 1, j0, a, b));
                    }
                    merge_ends(&mut ends, &child);
                }
            }
        }
        assert forall|a: int, b: int|
            #![trigger listed_pos(ends@, a, b)]
            #![trigger reaches(g, i0 - 1, j0, a, b)]
            listed_pos(ends@, a, b) == ((down_ok && reaches(g, i0 + 1, j0, a, b)) || (
            up_ok && reaches(g, i0 - 1, j0, a, b))) by {
            if up_ok {
                assert(cells(*old(walked))[i0 - 1][j0] == 0 || g[i0 - 1][j0] <= value);
            }
        }
        if pos[1] + 1 < ncols {
            let new_pos = [pos[0], pos[1] + 1];
            assert(new_pos@[0] == i0 && new_pos@[1] == j0 + 1);
            if walked.get(new_pos[0], new_pos[1]) == 0 {
                let new_value = self.map.get(new_pos[0], new_pos[1]);
                if new_value as usize == value + 1 {
                    walked.set(new_pos[0], new_pos[1], 1);
                    let child = self.find_trail_ends(new_pos, new_value as usize, walked);
                    walked.set(new_pos[0], new_pos[1], 0);
                    proof {
                        assert(cells(*walked) =~~= cells(*old(walked)));
                        assert(forall|a: int, b: int|
                            #![trigger listed_pos(child@, a, b)]
                            #![trigger reaches(g, i0, j0 + 1, a, b)]
                            listed_pos(child@, a, b) == reaches(g, i0, j0 + 1, a, b));
                    }
                    merge_ends(&mut ends, &child);
                }
            }
        }
        assert forall|a: int, b: int|
            #![trigger listed_pos(ends@, a, b)]
            #![trigger reaches(g, i0, j0 + 1, a, b)]
            listed_pos(ends@, a, b) == ((down_ok && reaches(g, i0 + 1, j0, a, b)) || (
            up_ok && reaches(g, i0 - 1, j0, a, b)) || (right_ok && reaches(
                g,
                i0,
                j0 + 1,
                a,
                b,
            ))) by {
            if right_ok {
                assert(cells(*old(walked))[i0][j0 + 1] == 0 || g[i0][j0 + 1] <= value);
            }
        }
        if pos[1] > 0 {
            let new_pos = [pos[0], pos[1] - 1];
            assert(new_pos@[0] == i0 && new_pos@[1] == j0 - 1);
            if walked.get(new_pos[0], new_pos[1]) == 0 {
                let new_value = self.map.get(new_pos[0], new_pos[1]);
                if new_value as usize == value + 1 {
                    walked.set(new_pos[0], new_pos[1], 1);
                    let child = self.find_trail_ends(new_pos, new_value as usize, walked);
                    walked.set(new_pos[0], new_pos[1], 0);
                    proof {
                        assert(cells(*walked) =~~= cells(*old(walked)));
                        assert(forall|a: int, b: int|
                            #![trigger listed_pos(child@, a, b)]
                            #![trigger reaches(g, i0, j0 - 1, a, b)]
                            listed_pos(child@, a, b) == reaches(g, i0, j0 - 1, a, b));
                    }
                    merge_ends(&mut ends, &child);
                }
            }
        }
        proof {
            assert forall|a: int, b: int|
                #![trigger listed_pos(ends@, a, b)]
                #![trigger reaches(g, i0, j0, a, b)]
                listed_pos(ends@, a, b) == reaches(g, i0, j0, a, b) by {
                if left_ok {
                    assert(cells(*old(walked))[i0][j0 - 1] == 0 || g[i0][j0 - 1] <= value);
                }
                assert(reaches(g, i0, j0, a, b) == ((down_ok && reaches(g, i0 + 1, j0, a, b)) || (
                up_ok && reaches(g, i0 - 1, j0, a, b)) || (right_ok && reaches(g, i0, j0 + 1, a, b))
                    || (left_ok && reaches(g, i0, j0 - 1, a, b))));
            }
        }
        ends
    }
}

/// Fold one summit list into another, keeping each summit once.
fn merge_ends(ends: &mut Vec<[usize; 2]>, child: &Vec<[usize; 2]>)
    ensures
        forall|a: int, b: int|
            #[trigger] listed_pos(final(ends)@, a, b) ==> listed_pos(old(ends)@, a, b)
                || listed_pos(child@, a, b),
        forall|a: int, b: int|
            #[trigger] listed_pos(old(ends)@, a, b) ==> listed_pos(final(ends)@, a, b),
        forall|a: int, b: int|
            #[trigger] listed_pos(child@, a, b) ==> listed_pos(final(ends)@, a, b),
{
    let n = child.len();
    let mut q: usize = 0;
    while q < n
        invariant
            n == child@.len(),
            q <= n,
            forall|a: int, b: int|
                #[trigger] listed_pos(ends@, a, b) ==> listed_pos(old(ends)@, a, b) || listed_pos(
                    child@,
                    a,
                    b,
                ),
            forall|a: int, b: int|
                #[trigger] listed_pos(old(ends)@, a, b) ==> listed_pos(ends@, a, b),
            forall|w: int|
                0 <= w < q ==> listed_pos(
                    ends@,
                    (#[trigger] child@[w])@[0] as int,
                    child@[w]@[1] as int,
                ),
        decreases n - q,
    {
        let ghost before = ends@;
        insert_end(ends, child[q]);
        proof {
            assert(listed_pos(ends@, child@[q as int]@[0] as int, child@[q as int]@[1] as int));
            assert forall|a: int, b: int| #[trigger] listed_pos(ends@, a, b) implies listed_pos(
                old(ends)@,
                a,
                b,
            ) || listed_pos(child@, a, b) by {
                if !listed_pos(before, a, b) {
                    assert(a == child@[q as int]@[0] && b == child@[q as int]@[1]);
                    assert(listed_pos(child@, a, b)) by {
                        assert(child@[q as int]@[0] == a && child@[q as int]@[1] == b);
                    }
                }
            }
            assert forall|w: int| 0 <= w < q + 1 implies listed_pos(
                ends@,
                (#[trigger] child@[w])@[0] as int,
                child@[w]@[1] as int,
            ) by {
                if w < q {
                    assert(listed_pos(before, child@[w]@[0] as int, child@[w]@[1] as int));
                }
            }
        }
        q += 1;
    }
    proof {
        assert forall|a: int, b: int| #[trigger] listed_pos(child@, a, b) implies listed_pos(
            ends@,
            a,
            b,
        ) by {
            let w = choose|w: int|
                0 <= w < child@.len() && (#[trigger] child@[w])@[0] == a && child@[w]@[1] == b;
            assert(listed_pos(ends@, child@[w]@[0] as int, child@[w]@[1] as int));
        }
    }
}

/// Whether `(a, b)` stands in the list.
fn has_pos(v: &Vec<[usize; 2]>, a: usize, b: usize) -> (r: bool)
    ensures
        r == listed_pos(v@, a as int, b as int),
{
    let n = v.len();
    let mut q: usize = 0;
    while q < n
        invariant
            n == v@.len(),
            q <= n,
            forall|w: int| 0 <= w < q ==> !((#[trigger] v@[w])@[0] == a && v@[w]@[1] == b),
        decreases n - q,
    {
        if v[q][0] == a && v[q][1] == b {
            assert(v@[q as int]@[0] == a && v@[q as int]@[1] == b);
            return true;
        }
        q += 1;
    }
    assert forall|w: int| 0 <= w < v@.len() implies !((#[trigger] v@[w])@[0] == a && v@[w]@[1]
        == b) by {}
    false
}

/// The summits reached from `(i, j)` in row `a`, left of column `bmax`.
pub open spec fn score_row(g: Seq<Seq<u8>>, i: int, j: int, a: int, bmax: int) -> int
    decreases bmax,
{
    if bmax <= 0 {
        0
    } else {
        score_row(g, i, j, a, bmax - 1) + if reaches(g, i, j, a, bmax - 1) {
            1int
        } else {
            0int
        }
    }
}

/// The summits reached from `(i, j)` above row `amax`.
pub open spec fn score(g: Seq<Seq<u8>>, i: int, j: int, amax: int) -> int
    decreases amax,
{
    if amax <= 0 {
        0
    } else {
        score(g, i, j, amax - 1) + score_row(g, i, j, amax - 1, g[0].len() as int)
    }
}

/// The head scores in row `i` left of column `jmax`.
pub open spec fn heads_row(g: Seq<Seq<u8>>, i: int, jmax: int) -> int
    decreases jmax,
{
    if jmax <= 0 {
        0
    } else {
        heads_row(g, i, jmax - 1) + if 0 <= i < g.len() && 0 < jmax <= g[i].len() && g[i][jmax - 1]
            == 0 {
            score(g, i, jmax - 1, g.len() as int)
        } else {
            0
        }
    }
}

/// The head scores above row `imax`.
pub open spec fn heads_total(g: Seq<Seq<u8>>, imax: int) -> int
    decreases imax,
{
    if imax <= 0 {
        0
    } else {
        heads_total(g, imax - 1) + heads_row(g, imax - 1, g[imax - 1].len() as int)
    }
}

/// Row scores grow by at most one per cell and never shrink.
proof fn lemma_score_row_bounds(g: Seq<Seq<u8>>, i: int, j: int, a: int, b1: int, b2: int)
    requires
        0 <= b1 <= b2,
    ensures
        score_row(g, i, j, a, b1) <= score_row(g, i, j, a, b2) <= score_row(g, i, j, a, b1) + (b2
            - b1),
    decreases b2 - b1,
{
    if b1 < b2 {
        lemma_score_row_bounds(g, i, j, a, b1, b2 - 1);
    }
}

/// Scores never shrink as rows are added.
proof fn lemma_score_le(g: Seq<Seq<u8>>, i: int, j: int, a1: int, a2: int)
    requires
        0 <= a1 <= a2,
    ensures
        score(g, i, j, a1) <= score(g, i, j, a2),
    decreases a2 - a1,
{
    if a1 < a2 {
        lemma_score_row_bounds(g, i, j, a2 - 1, 0, g[0].len() as int);
        lemma_score_le(g, i, j, a1, a2 - 1);
    }
}

/// Head-row prefixes never shrink.
proof fn lemma_heads_row_le(g: Seq<Seq<u8>>, i: int, j1: int, j2: int)
    requires
        0 <= j1 <= j2,
    ensures
        heads_row(g, i, j1) <= heads_row(g, i, j2),
    decreases j2 - j1,
{
    if j1 < j2 {
        if 0 <= i < g.len() && 0 < j2 <= g[i].len() && g[i][j2 - 1] == 0 {
            lemma_score_le(g, i, j2 - 1, 0, g.len() as int);
        }
        lemma_heads_row_le(g, i, j1, j2 - 1);
    }
}

/// Head totals never shrink.
proof fn lemma_heads_total_le(g: Seq<Seq<u8>>, i1: int, i2: int)
    requires
        0 <= i1 <= i2,
    ensures
        heads_total(g, i1) <= heads_total(g, i2),
    decreases i2 - i1,
{
    if i1 < i2 {
        lemma_heads_row_le(g, i2 - 1, 0, g[i2 - 1].len() as int);
        lemma_heads_total_le(g, i1, i2 - 1);
    }
}

impl Puzzle {
    /// Sum, over every trailhead of height zero, how many distinct
    /// summits its trails reach.
    pub fn process(&mut self) -> (r: usize)
        requires
            usize::MAX >= u64::MAX,
            heights_ok(cells(old(self).map)),
            heads_total(cells(old(self).map), cells(old(self).map).len() as int) <= usize::MAX,
            cells(old(self).map).len() <= 0x10000000,
            cells(old(self).map).len() > 0 ==> cells(old(self).map)[0].len() <= 0x10000000,
        ensures
            final(self).map == old(self).map,
            r == heads_total(cells(old(self).map), cells(old(self).map).len() as int),
    {
        let ghost g = cells(self.map);
        let (nrows, ncols) = self.map.dim();
        if nrows == 0 {
            return 0;
        }
        let mut zeros: Vec<u8> = Vec::new();
        let mut z: usize = 0;
        proof {
            assert(nrows * ncols >= 0) by (nonlinear_arith)
                requires
                    nrows >= 0,
                    ncols >= 0,
            ;
            assert(nrows * ncols <= 0x10000000 * 0x10000000) by (nonlinear_arith)
                requires
                    0 <= nrows <= 0x10000000,
                    0 <= ncols <= 0x10000000,
            ;
        }
        let total_cells = nrows * ncols;
        while z < total_cells
            invariant
                z <= total_cells,
                zeros@.len() == z,
                forall|q: int| 0 <= q < z ==> (#[trigger] zeros@[q]) == 0,
            decreases total_cells - z,
        {
            zeros.push(0);
            z += 1;
        }
        let mut walked = crate::grid::ByteGrid::new(nrows, ncols, zeros);
        proof {
            assert forall|q: int| 0 <= q < nrows implies (#[trigger] cells(walked)[q]).len()
                == ncols by {
                assert(0 <= q * ncols && q * ncols + ncols <= nrows * ncols) by (nonlinear_arith)
                    requires
                        0 <= q < nrows,
                        0 <= ncols,
                ;
                assert(cells(walked)[q] == zeros@.subrange(q * ncols, q * ncols + ncols));
            }
            assert forall|i: int, j: int|
                0 <= i < cells(walked).len() && 0 <= j < cells(walked)[i].len() implies (
            #[trigger] cells(walked)[i][j]) == 0 by {
                assert(0 <= i * ncols && i * ncols + ncols <= nrows * ncols) by (nonlinear_arith)
                    requires
                        0 <= i < nrows,
                        0 <= ncols,
                ;
                assert(cells(walked)[i] == zeros@.subrange(i * ncols, i * ncols + ncols));
                assert(zeros@[i * ncols + j] == 0);
            }
        }
        let mut out: usize = 0;
        let mut i: usize = 0;
        while i < nrows
            invariant
                g == cells(self.map),
                self.map == old(self).map,
                heights_ok(g),
                nrows == g.len(),
                forall|q: int| 0 <= q < g.len() ==> (#[trigger] g[q]).len() == ncols,
                cells(walked).len() == nrows,
                forall|q: int|
                    0 <= q < nrows ==> (#[trigger] cells(walked)[q]).len() == ncols,
                forall|q: int, w: int|
                    0 <= q < nrows && 0 <= w < ncols ==> (#[trigger] cells(walked)[q][w]) == 0,
                heads_total(g, nrows as int) <= usize::MAX,
                i <= nrows,
                out == heads_total(g, i as int),
            decreases nrows - i,
        {
            proof {
                lemma_heads_total_le(g, i as int + 1, nrows as int);
                lemma_heads_row_le(g, i as int, 0, ncols as int);
                lemma_heads_total_le(g, 0, i as int);
            }
            let mut j: usize = 0;
            let ghost out0 = out;
            while j < ncols
                invariant
                    g == cells(self.map),
                    self.map == old(self).map,
                    heights_ok(g),
                    nrows == g.len(),
                    forall|q: int| 0 <= q < g.len() ==> (#[trigger] g[q]).len() == ncols,
                    cells(walked).len() == nrows,
                    forall|q: int|
                        0 <= q < nrows ==> (#[trigger] cells(walked)[q]).len() == ncols,
                    forall|q: int, w: int|
                        0 <= q < nrows && 0 <= w < ncols ==> (#[trigger] cells(walked)[q][w]) == 0,
                    i < nrows,
                    j <= ncols,
                    out == out0 + heads_row(g, i as int, j as int),
                    out0 + heads_row(g, i as int, ncols as int) <= usize::MAX,
                    out0 == heads_total(g, i as int),
                    out0 >= 0,
                decreases ncols - j,
            {
                proof {
                    lemma_heads_row_le(g, i as int, j as int + 1, ncols as int);
                    lemma_heads_row_le(g, i as int, 0, j as int);
                }
                let start = self.map.get(i, j);
                if start == 0 {
                    let ends = self.find_trail_ends([i, j], 0, &mut walked);
                    let mut head_score: usize = 0;
                    let mut a: usize = 0;
                    while a < nrows
                        invariant
                            g == cells(self.map),
                            heights_ok(g),
                            nrows == g.len(),
                            forall|q: int| 0 <= q < g.len() ==> (#[trigger] g[q]).len() == ncols,
                            i < nrows,
                            j < ncols,
                            forall|x: int, y: int|
                                #![trigger listed_pos(ends@, x, y)]
                                #![trigger reaches(g, i as int, j as int, x, y)]
                                listed_pos(ends@, x, y) == reaches(g, i as int, j as int, x, y),
                            a <= nrows,
                            head_score == score(g, i as int, j as int, a as int),
                            head_score <= a * ncols,
                        decreases nrows - a,
                    {
                        let ghost hs0 = head_score;
                        let mut b: usize = 0;
                        while b < ncols
                            invariant
                                g == cells(self.map),
                                nrows == g.len(),
                                forall|q: int|
                                    0 <= q < g.len() ==> (#[trigger] g[q]).len() == ncols,
                                i < nrows,
                                j < ncols,
                                a < nrows,
                                forall|x: int, y: int|
                                    #![trigger listed_pos(ends@, x, y)]
                                    #![trigger reaches(g, i as int, j as int, x, y)]
                                    listed_pos(ends@, x, y) == reaches(g, i as int, j as int, x, y),
                                b <= ncols,
                                head_score == hs0 + score_row(g, i as int, j as int, a as int, b as int),
                                hs0 == score(g, i as int, j as int, a as int),
                                hs0 <= a * ncols,
                            decreases ncols - b,
                        {
                            proof {
                                lemma_score_row_bounds(g, i as int, j as int, a as int, 0, b as int);
                                lemma_score_row_bounds(
                                    g,
                                    i as int,
                                    j as int,
                                    a as int,
                                    b as int,
                                    b as int + 1,
                                );
                                assert(a * ncols + ncols <= nrows * ncols) by (nonlinear_arith)
                                    requires
                                        0 <= a < nrows,
                                        ncols >= 0,
                                ;
                                assert(nrows * ncols <= 0x10000000 * 0x10000000)
                                    by (nonlinear_arith)
                                    requires
                                        0 <= nrows <= 0x10000000,
                                        0 <= ncols <= 0x10000000,
                                ;
                            }
                            if has_pos(&ends, a, b) {
                                head_score += 1;
                            }
                            b += 1;
                        }
                        proof {
                            assert((a + 1) * ncols == a * ncols + ncols) by (nonlinear_arith);
                            lemma_score_row_bounds(g, i as int, j as int, a as int, 0, ncols as int);
                        }
                        a += 1;
                    }
                    assert(head_score == score(g, i as int, j as int, nrows as int));
                    out += head_score;
                } else {
                    assert(heads_row(g, i as int, j as int + 1) == heads_row(g, i as int, j as int));
                }
                j += 1;
            }
            i += 1;
        }
        out
    }
}

/// Read the height map.  Succeeds exactly when the lines form a height
/// map the library takes.
pub fn parse(s: &str) -> (r: Option<Puzzle>)
    ensures
        r is Some <==> height_input_ok(lines_of(s.spec_bytes())),
        r matches Some(p) ==> {
            let lines = lines_of(s.spec_bytes());
            &&& heights_ok(cells(p.map))
            &&& cells(p.map).len() == lines.len()
            &&& cells(p.map).len() <= 0x10000000
            &&& (cells(p.map).len() > 0 ==> cells(p.map)[0].len() <= 0x10000000)
            &&& forall|k: int, c: int|
                0 <= k < lines.len() && 0 <= c < lines[k].len() ==> (#[trigger] cells(
                    p.map,
                )[k][c]) + 0x30 == lines[k][c]
        },
{
    match day10b::parse(s) {
        Some(p) => Some(Puzzle { map: p.map }),
        None => None,
    }
}

} // verus!
