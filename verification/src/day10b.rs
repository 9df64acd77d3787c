use vstd::prelude::*;
use vstd::string::StringSliceAdditionalSpecFns;
use crate::grid::{cells, ByteGrid};
use crate::text::{lines_of, split_lines, views_of};

verus! {

/// Every cell is a height from 0 to 9 and every row is as long as the
/// first.
pub open spec fn heights_ok(g: Seq<Seq<u8>>) -> bool {
    &&& forall|i: int, j: int|
        0 <= i < g.len() && 0 <= j < g[i].len() ==> (#[trigger] g[i][j]) <= 9
    &&& forall|i: int| 0 <= i < g.len() ==> (#[trigger] g[i]).len() == g[0].len()
}

/// How many distinct upward trails lead from this cell to a summit:
/// a summit counts itself once, and any other cell sums the trails of
/// its neighbours one step higher, looking down, up, right, then left.
pub open spec fn trail_count(g: Seq<Seq<u8>>, i: int, j: int) -> nat
    decreases 9 - g[i][j],
    when 0 <= i < g.len() && 0 <= j < g[i].len() && heights_ok(g)
{
    let v = g[i][j];
    if v == 9 {
        1
    } else {
        (if i + 1 < g.len() && g[i + 1][j] == v + 1 {
            trail_count(g, i + 1, j)
        } else {
            0
        }) + (if i >= 1 && g[i - 1][j] == v + 1 {
            trail_count(g, i - 1, j)
        } else {
            0
        }) + (if j + 1 < g[i].len() && g[i][j + 1] == v + 1 {
            trail_count(g, i, j + 1)
        } else {
            0
        }) + (if j >= 1 && g[i][j - 1] == v + 1 {
            trail_count(g, i, j - 1)
        } else {
            0
        })
    }
}

/// The height map.
#[derive(Debug)]
pub struct Puzzle {
    pub map: ByteGrid,
}

impl Puzzle {
    /// Count the trails from `pos` upward, one step of height at a
    /// time, to the summits of height 9.  Cells marked walked are
    /// skipped; the marks come back as they went in.
    #[verifier::rlimit(60)]
    pub fn count_trails(&self, pos: [usize; 2], value: usize, walked: &mut ByteGrid) -> (r: usize)
        requires
            heights_ok(cells(self.map)),
            cells(*old(walked)).len() == cells(self.map).len(),
            forall|i: int|
                0 <= i < cells(self.map).len() ==> (#[trigger] cells(*old(walked))[i]).len()
                    == cells(self.map)[i].len(),
            pos@[0] < cells(self.map).len(),
            pos@[1] < cells(self.map)[0].len(),
            value == cells(self.map)[pos@[0] as int][pos@[1] as int],
            forall|i: int, j: int|
                0 <= i < cells(self.map).len() && 0 <= j < cells(self.map)[i].len() && (
                #[trigger] cells(*old(walked))[i][j]) != 0 ==> cells(self.map)[i][j] <= value,
            trail_count(cells(self.map), pos@[0] as int, pos@[1] as int) <= usize::MAX,
        ensures
            cells(*final(walked)) == cells(*old(walked)),
            r == trail_count(cells(self.map), pos@[0] as int, pos@[1] as int),
        decreases 9 - value,
    {
        let ghost g = cells(self.map);
        let (nrows, ncols) = self.map.dim();
        if value == 9 {
            return 1;
        }
        assert(value < 9);
        let mut count: usize = 0;
        let ghost total = trail_count(g, pos@[0] as int, pos@[1] as int);
        let ghost t_down = if pos@[0] + 1 < g.len() && g[pos@[0] + 1][pos@[1] as int] == value + 1 {
            trail_count(g, pos@[0] + 1, pos@[1] as int)
        } else {
            0nat
        };
        let ghost t_up = if pos@[0] >= 1 && g[pos@[0] - 1][pos@[1] as int] == value + 1 {
            trail_count(g, pos@[0] - 1, pos@[1] as int)
        } else {
            0nat
        };
        let ghost t_right = if pos@[1] + 1 < g[pos@[0] as int].len() && g[pos@[0] as int][pos@[1]
            + 1] == value + 1 {
            trail_count(g, pos@[0] as int, pos@[1] + 1)
        } else {
            0nat
        };
        let ghost t_left = if pos@[1] >= 1 && g[pos@[0] as int][pos@[1] - 1] == value + 1 {
            trail_count(g, pos@[0] as int, pos@[1] - 1)
        } else {
            0nat
        };
        assert(total == t_down + t_up + t_right + t_left);
        if pos[0] + 1 < nrows {
            let new_pos = [pos[0] + 1, pos[1]];
            if walked.get(new_pos[0], new_pos[1]) == 0 {
                let new_value = self.map.get(new_pos[0], new_pos[1]);
                if new_value as usize == value + 1 {
                    walked.set(new_pos[0], new_pos[1], 1);
                    count += self.count_trails(new_pos, new_value as usize, walked);
                    walked.set(new_pos[0], new_pos[1], 0);
                    proof {
                        assert(cells(*walked) =~~= cells(*old(walked)));
                    }
                }
            }
        }
        assert(count == t_down);
        if pos[0] > 0 {
            let new_pos = [pos[0] - 1, pos[1]];
            if walked.get(new_pos[0], new_pos[1]) == 0 {
                let new_value = self.map.get(new_pos[0], new_pos[1]);
                if new_value as usize == value + 1 {
                    walked.set(new_pos[0], new_pos[1], 1);
                    count += self.count_trails(new_pos, new_value as usize, walked);
                    walked.set(new_pos[0], new_pos[1], 0);
                    proof {
                        assert(cells(*walked) =~~= cells(*old(walked)));
                    }
                }
            }
        }
        assert(count == t_down + t_up);
        if pos[1] + 1 < ncols {
            let new_pos = [pos[0], pos[1] + 1];
            if walked.get(new_pos[0], new_pos[1]) == 0 {
                let new_value = self.map.get(new_pos[0], new_pos[1]);
                if new_value as usize == value + 1 {
                    walked.set(new_pos[0], new_pos[1], 1);
                    count += self.count_trails(new_pos, new_value as usize, walked);
                    walked.set(new_pos[0], new_pos[1], 0);
                    proof {
                        assert(cells(*walked) =~~= cells(*old(walked)));
                    }
                }
            }
        }
        assert(count == t_down + t_up + t_right);
        if pos[1] > 0 {
            let new_pos = [pos[0], pos[1] - 1];
            if walked.get(new_pos[0], new_pos[1]) == 0 {
                let new_value = self.map.get(new_pos[0], new_pos[1]);
                if new_value as usize == value + 1 {
                    walked.set(new_pos[0], new_pos[1], 1);
                    count += self.count_trails(new_pos, new_value as usize, walked);
                    walked.set(new_pos[0], new_pos[1], 0);
                    proof {
                        assert(cells(*walked) =~~= cells(*old(walked)));
                    }
                }
            }
        }
        assert(count == total);
        count
    }
}

/// The trails starting in row `i` left of column `j`.
pub open spec fn row_trails(g: Seq<Seq<u8>>, i: int, j: int) -> int
    decreases j,
{
    if j <= 0 {
        0
    } else {
        row_trails(g, i, j - 1) + if 0 <= i < g.len() && 0 < j <= g[i].len() && g[i][j - 1] == 0 {
            trail_count(g, i, j - 1) as int
        } else {
            0
        }
    }
}

/// The trails starting above row `i`.
pub open spec fn grid_trails(g: Seq<Seq<u8>>, i: int) -> int
    decreases i,
{
    if i <= 0 {
        0
    } else {
        grid_trails(g, i - 1) + row_trails(g, i - 1, g[i - 1].len() as int)
    }
}

/// Row prefix sums never shrink.
proof fn lemma_row_trails_le(g: Seq<Seq<u8>>, i: int, j: int, n: int)
    requires
        0 <= j <= n,
    ensures
        row_trails(g, i, j) <= row_trails(g, i, n),
    decreases n - j,
{
    if j < n {
        lemma_row_trails_le(g, i, j + 1, n);
    }
}

/// Row sums are nonnegative.
proof fn lemma_row_trails_nonneg(g: Seq<Seq<u8>>, i: int, j: int)
    requires
        j >= 0,
    ensures
        row_trails(g, i, j) >= 0,
    decreases j,
{
    if j > 0 {
        lemma_row_trails_nonneg(g, i, j - 1);
    }
}

/// Grid prefix sums never shrink.
proof fn lemma_grid_trails_le(g: Seq<Seq<u8>>, i: int, n: int)
    requires
        0 <= i <= n,
    ensures
        grid_trails(g, i) <= grid_trails(g, n),
    decreases n - i,
{
    if i < n {
        lemma_row_trails_nonneg(g, i, g[i].len() as int);
        lemma_grid_trails_le(g, i + 1, n);
    }
}

impl Puzzle {
    /// Sum the distinct upward trails from every trailhead of height
    /// zero.
    pub fn process(&mut self) -> (r: usize)
        requires
            usize::MAX >= u64::MAX,
            heights_ok(cells(old(self).map)),
            grid_trails(cells(old(self).map), cells(old(self).map).len() as int) <= usize::MAX,
            cells(old(self).map).len() <= 0x10000000,
            cells(old(self).map).len() > 0 ==> cells(old(self).map)[0].len() <= 0x10000000,
        ensures
            final(self).map == old(self).map,
            r == grid_trails(cells(old(self).map), cells(old(self).map).len() as int),
    {
        let ghost g = cells(self.map);
        let (nrows, ncols) = self.map.dim();
        if nrows == 0 {
            return 0;
        }
        let mut zeros: Vec<u8> = Vec::new();
        let mut z: usize = 0;
        proof {
            assert(nrows * ncols >= 0) by (nonlinear_arith)
                requires
                    nrows >= 0,
                    ncols >= 0,
            ;
            assert(nrows * ncols <= 0x10000000 * 0x10000000) by (nonlinear_arith)
                requires
                    0 <= nrows <= 0x10000000,
                    0 <= ncols <= 0x10000000,
            ;
        }
        let total_cells = nrows * ncols;
        while z < total_cells
            invariant
                z <= total_cells,
                zeros@.len() == z,
                forall|q: int| 0 <= q < z ==> (#[trigger] zeros@[q]) == 0,
            decreases total_cells - z,
        {
            zeros.push(0);
            z += 1;
        }
        let mut walked = ByteGrid::new(nrows, ncols, zeros);
        proof {
            assert forall|q: int| 0 <= q < nrows implies (#[trigger] cells(walked)[q]).len()
                == ncols by {
                assert(0 <= q * ncols && q * ncols + ncols <= nrows * ncols) by (nonlinear_arith)
                    requires
                        0 <= q < nrows,
                        0 <= ncols,
                ;
                assert(cells(walked)[q] == zeros@.subrange(q * ncols, q * ncols + ncols));
            }
            assert forall|i: int, j: int|
                0 <= i < cells(walked).len() && 0 <= j < cells(walked)[i].len() implies (
            #[trigger] cells(walked)[i][j]) == 0 by {
                assert(0 <= i * ncols && i * ncols + ncols <= nrows * ncols) by (nonlinear_arith)
                    requires
                        0 <= i < nrows,
                        0 <= ncols,
                ;
                assert(cells(walked)[i] == zeros@.subrange(i * ncols, i * ncols + ncols));
                assert(zeros@[i * ncols + j] == 0);
            }
        }
        let mut out: usize = 0;
        let mut i: usize = 0;
        while i < nrows
            invariant
                g == cells(self.map),
                self.map == old(self).map,
                heights_ok(g),
                nrows == g.len(),
                forall|q: int| 0 <= q < g.len() ==> (#[trigger] g[q]).len() == ncols,
                cells(walked).len() == nrows,
                forall|q: int|
                    0 <= q < nrows ==> (#[trigger] cells(walked)[q]).len() == ncols,
                forall|q: int, w: int|
                    0 <= q < nrows && 0 <= w < ncols ==> (#[trigger] cells(walked)[q][w]) == 0,
                grid_trails(g, nrows as int) <= usize::MAX,
                i <= nrows,
                out == grid_trails(g, i as int),
            decreases nrows - i,
        {
            proof {
                lemma_grid_trails_le(g, i as int + 1, nrows as int);
                lemma_row_trails_nonneg(g, i as int, ncols as int);
                assert(grid_trails(g, i as int) >= 0) by {
                    lemma_grid_trails_le(g, 0, i as int);
                }
            }
            let mut j: usize = 0;
            let ghost out0 = out;
            while j < ncols
                invariant
                    g == cells(self.map),
                    self.map == old(self).map,
                    heights_ok(g),
                    nrows == g.len(),
                    forall|q: int| 0 <= q < g.len() ==> (#[trigger] g[q]).len() == ncols,
                    cells(walked).len() == nrows,
                    forall|q: int|
                        0 <= q < nrows ==> (#[trigger] cells(walked)[q]).len() == ncols,
                    forall|q: int, w: int|
                        0 <= q < nrows && 0 <= w < ncols ==> (#[trigger] cells(walked)[q][w]) == 0,
                    i < nrows,
                    j <= ncols,
                    out == out0 + row_trails(g, i as int, j as int),
                    out0 + row_trails(g, i as int, ncols as int) <= usize::MAX,
                    out0 == grid_trails(g, i as int),
                    out0 >= 0,
                decreases ncols - j,
            {
                proof {
                    lemma_row_trails_le(g, i as int, j as int + 1, ncols as int);
                    lemma_row_trails_nonneg(g, i as int, j as int);
                }
                let start = self.map.get(i, j);
                if start == 0 {
                    let c = self.count_trails([i, j], 0, &mut walked);
                    out += c;
                }
                j += 1;
            }
            i += 1;
        }
        out
    }
}

/// The lines form a height map the library takes: at least one line,
/// rows of one shared length, every byte a digit, and both dimensions
/// in memory range.
pub open spec fn height_input_ok(lns: Seq<Seq<u8>>) -> bool {
    &&& lns.len() >= 1
    &&& lns.len() <= 0x10000000
    &&& lns[0].len() <= 0x10000000
    &&& forall|k: int| 0 <= k < lns.len() ==> (#[trigger] lns[k]).len() == lns[0].len()
    &&& forall|k: int, c: int|
        0 <= k < lns.len() && 0 <= c < lns[k].len() ==> crate::text::is_digit(
            #[trigger] lns[k][c],
        )
}

/// Read the height map.  Succeeds exactly when there is at least one
/// line, every line is as long as the first, every byte is a digit, and
/// the grid fits in memory.
pub fn parse(s: &str) -> (r: Option<Puzzle>)
    ensures
        r is Some <==> height_input_ok(lines_of(s.spec_bytes())),
        r matches Some(p) ==> {
            let lines = lines_of(s.spec_bytes());
            &&& heights_ok(cells(p.map))
            &&& cells(p.map).len() == lines.len()
            &&& cells(p.map).len() <= 0x10000000
            &&& (cells(p.map).len() > 0 ==> cells(p.map)[0].len() <= 0x10000000)
            &&& forall|k: int, c: int|
                0 <= k < lines.len() && 0 <= c < lines[k].len() ==> (#[trigger] cells(
                    p.map,
                )[k][c]) + 0x30 == lines[k][c]
        },
{
    let lines = split_lines(s.as_bytes());
    let nrows = lines.len();
    if nrows == 0 || nrows > 0x10000000 {
        return None;
    }
    let ncols = lines[0].len();
    assert(lines_of(s.spec_bytes())[0] == lines@[0]@);
    if ncols > 0x10000000 {
        return None;
    }
    let mut flat: Vec<u8> = Vec::new();
    let mut k: usize = 0;
    while k < nrows
        invariant
            nrows == lines@.len(),
            views_of(lines@) == lines_of(s.spec_bytes()),
            1 <= nrows <= 0x10000000,
            ncols == lines@[0]@.len(),
            ncols <= 0x10000000,
            k <= nrows,
            flat@.len() == k * ncols,
            forall|q: int| 0 <= q < k ==> (#[trigger] lines@[q])@.len() == ncols,
            forall|q: int|
                0 <= q < flat@.len() ==> (#[trigger] flat@[q]) <= 9,
            forall|q: int, c: int|
                0 <= q < k && 0 <= c < ncols ==> (#[trigger] flat@[q * ncols + c]) + 0x30
                    == lines@[q]@[c],
        decreases nrows - k,
    {
        if lines[k].len() != ncols {
            proof {
                assert(lines_of(s.spec_bytes())[k as int] == lines@[k as int]@);
                assert(!height_input_ok(lines_of(s.spec_bytes())));
            }
            return None;
        }
        let ghost before = flat@;
        let line = &lines[k];
        let mut c: usize = 0;
        while c < ncols
            invariant
                nrows == lines@.len(),
                k < nrows,
                line == &lines@[k as int],
                ncols == line@.len(),
                c <= ncols,
                before.len() == k * ncols,
                flat@.len() == before.len() + c,
                forall|q: int| 0 <= q < before.len() ==> flat@[q] == before[q],
                forall|q: int| 0 <= q < flat@.len() ==> (#[trigger] flat@[q]) <= 9,
                forall|w: int|
                    0 <= w < c ==> (#[trigger] flat@[before.len() + w]) + 0x30 == line@[w],
            decreases ncols - c,
        {
            let b = line[c];
            if b < 0x30 || b > 0x39 {
                proof {
                    assert(lines_of(s.spec_bytes())[k as int] == lines@[k as int]@);
                    assert(!crate::text::is_digit(lines_of(s.spec_bytes())[k as int][c as int]));
                    assert(!height_input_ok(lines_of(s.spec_bytes())));
                }
                return None;
            }
            flat.push(b - 0x30);
            c += 1;
        }
        proof {
            assert((k + 1) * ncols == k * ncols + ncols) by (nonlinear_arith);
            assert forall|q: int, cc: int|
                0 <= q < k + 1 && 0 <= cc < ncols implies (#[trigger] flat@[q * ncols + cc])
                    + 0x30 == lines@[q]@[cc] by {
                if q < k {
                    assert(0 <= q * ncols + cc < before.len()) by (nonlinear_arith)
                        requires
                            0 <= q < k,
                            0 <= cc < ncols,
                            before.len() == k * ncols,
                    ;
                    assert(flat@[q * ncols + cc] == before[q * ncols + cc]);
                } else {
                    assert(q * ncols + cc == before.len() + cc) by (nonlinear_arith)
                        requires
                            q == k,
                            before.len() == k * ncols,
                    ;
                }
            }
        }
        k += 1;
    }
    proof {
        assert(nrows * ncols <= 0x7fffffffffffffff) by (nonlinear_arith)
            requires
                nrows <= 0x10000000,
                ncols <= 0x10000000,
        ;
    }
    let map = ByteGrid::new(nrows, ncols, flat);
    let p = Puzzle { map };
    proof {
        let lns = lines_of(s.spec_bytes());
        assert forall|k2: int| 0 <= k2 < lns.len() implies (#[trigger] lns[k2]).len()
            == lns[0].len() by {
            assert(lns[k2] == lines@[k2]@);
        }
        assert forall|k2: int, c2: int|
            0 <= k2 < lns.len() && 0 <= c2 < lns[k2].len() implies crate::text::is_digit(
            #[trigger] lns[k2][c2],
        ) by {
            assert(lns[k2] == lines@[k2]@);
            assert(0 <= k2 * ncols && k2 * ncols + c2 < nrows * ncols) by (nonlinear_arith)
                requires
                    0 <= k2 < nrows,
                    0 <= c2 < ncols,
            ;
            assert(flat@[k2 * ncols + c2] + 0x30 == lines@[k2]@[c2]);
            assert(flat@[k2 * ncols + c2] <= 9);
        }
        assert(height_input_ok(lns));
        assert forall|i: int| 0 <= i < cells(p.map).len() implies (#[trigger] cells(
            p.map,
        )[i]).len() == ncols by {
            assert(0 <= i * ncols && i * ncols + ncols <= nrows * ncols) by (nonlinear_arith)
                requires
                    0 <= i < nrows,
                    0 <= ncols,
            ;
            assert(cells(p.map)[i] == flat@.subrange(i * ncols, i * ncols + ncols));
        }
        assert forall|i: int, j: int|
            0 <= i < cells(p.map).len() && 0 <= j < cells(p.map)[i].len() implies (
        #[trigger] cells(p.map)[i][j]) <= 9 by {
            assert(0 <= i * ncols && i * ncols + ncols <= nrows * ncols) by (nonlinear_arith)
                requires
                    0 <= i < nrows,
                    0 <= ncols,
            ;
            assert(cells(p.map)[i] == flat@.subrange(i * ncols, i * ncols + ncols));
        }
        let lns = lines_of(s.spec_bytes());
        assert forall|k2: int, c2: int|
            0 <= k2 < lns.len() && 0 <= c2 < lns[k2].len() implies (#[trigger] cells(
            p.map,
        )[k2][c2]) + 0x30 == lns[k2][c2] by {
            assert(lns[k2] == lines@[k2]@);
            assert(0 <= k2 * ncols && k2 * ncols + ncols <= nrows * ncols) by (nonlinear_arith)
                requires
                    0 <= k2 < nrows,
                    0 <= ncols,
            ;
            assert(cells(p.map)[k2] == flat@.subrange(k2 * ncols, k2 * ncols + ncols));
            assert(flat@[k2 * ncols + c2] + 0x30 == lines@[k2]@[c2]);
        }
    }
    Some(p)
}

} // verus!
