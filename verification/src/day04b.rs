use vstd::prelude::*;
use vstd::string::StringSliceAdditionalSpecFns;
use crate::day04a;
use crate::day04a::{cell_is, grid_input_ok, norm_line};
use crate::grid::{cells, ByteGrid};
use crate::text::lines_of;

verus! {

/// Read the letter grid.  Succeeds exactly when every line is as long
/// as the first and the grid fits in memory.
pub fn extract(s: &str) -> (r: Option<ByteGrid>)
    ensures
        r is Some <==> grid_input_ok(lines_of(s.spec_bytes())),
        r matches Some(g) ==> {
            &&& cells(g).len() == lines_of(s.spec_bytes()).len()
            &&& forall|k: int|
                0 <= k < cells(g).len() ==> (#[trigger] cells(g)[k]) == norm_line(
                    lines_of(s.spec_bytes())[k],
                )
        },
{
    day04a::extract(s)
}

/// The two diagonals through `(i, j)` each spell M-A-S one way or the
/// other, with the A in the middle.
pub open spec fn cross_at(g: Seq<Seq<u8>>, i: int, j: int) -> bool {
    &&& (cell_is(g, i - 1, j - 1, 0x4d) && cell_is(g, i + 1, j + 1, 0x53) || cell_is(
        g,
        i - 1,
        j - 1,
        0x53,
    ) && cell_is(g, i + 1, j + 1, 0x4d))
    &&& (cell_is(g, i - 1, j + 1, 0x4d) && cell_is(g, i + 1, j - 1, 0x53) || cell_is(
        g,
        i - 1,
        j + 1,
        0x53,
    ) && cell_is(g, i + 1, j - 1, 0x4d))
}

/// Check the crossed-word shape around `(i, j)`, which must lie in the
/// grid's interior.
pub fn check_location(tokens: &ByteGrid, i: usize, j: usize) -> (r: bool)
    requires
        1 <= i,
        i + 1 < cells(*tokens).len(),
        1 <= j,
        j + 1 < cells(*tokens)[i as int - 1].len(),
        j + 1 < cells(*tokens)[i as int + 1].len(),
    ensures
        r == cross_at(cells(*tokens), i as int, j as int),
{
    let (nrows, ncols) = tokens.dim();
    assert(i + 1 < nrows && j + 1 < ncols);
    let ul = tokens.get(i - 1, j - 1);
    let ur = tokens.get(i - 1, j + 1);
    let ll = tokens.get(i + 1, j - 1);
    let lr = tokens.get(i + 1, j + 1);
    if ul == 0x4d {
        if lr != 0x53 {
            return false;
        }
    } else if ul == 0x53 {
        if lr != 0x4d {
            return false;
        }
    } else {
        return false;
    }
    if ur == 0x4d {
        if ll != 0x53 {
            return false;
        }
    } else if ur == 0x53 {
        if ll != 0x4d {
            return false;
        }
    } else {
        return false;
    }
    true
}

/// The crosses found in row `i` left of column `j`, counting only the
/// grid's interior.
pub open spec fn row_crosses(g: Seq<Seq<u8>>, i: int, j: int) -> int
    decreases j,
{
    if j <= 0 {
        0
    } else {
        row_crosses(g, i, j - 1) + if 1 <= j - 1 < g[i].len() - 1 && 1 <= i < g.len() - 1
            && cell_is(g, i, j - 1, 0x41) && cross_at(g, i, j - 1) {
            1int
        } else {
            0int
        }
    }
}

/// The crosses found above row `i`.
pub open spec fn grid_crosses(g: Seq<Seq<u8>>, i: int) -> int
    decreases i,
{
    if i <= 0 {
        0
    } else {
        grid_crosses(g, i - 1) + row_crosses(g, i - 1, g[i - 1].len() as int)
    }
}

/// Row prefix counts never shrink and stay within one per cell.
proof fn lemma_row_crosses_bounds(g: Seq<Seq<u8>>, i: int, j: int, n: int)
    requires
        0 <= j <= n,
    ensures
        row_crosses(g, i, j) <= row_crosses(g, i, n) <= row_crosses(g, i, j) + (n - j),
    decreases n - j,
{
    if j < n {
        lemma_row_crosses_bounds(g, i, j + 1, n);
    }
}

/// Grid prefix counts never shrink.
proof fn lemma_grid_crosses_le(g: Seq<Seq<u8>>, i: int, n: int)
    requires
        0 <= i <= n,
    ensures
        grid_crosses(g, i) <= grid_crosses(g, n),
    decreases n - i,
{
    if i < n {
        lemma_row_crosses_bounds(g, i, 0, g[i].len() as int);
        lemma_grid_crosses_le(g, i + 1, n);
    }
}

/// Count every crossed word in the grid's interior.
pub fn process(tokens: &ByteGrid) -> (r: usize)
    requires
        grid_crosses(cells(*tokens), cells(*tokens).len() as int) <= usize::MAX,
    ensures
        r == grid_crosses(cells(*tokens), cells(*tokens).len() as int),
{
    let (nrows, ncols) = tokens.dim();
    let ghost g = cells(*tokens);
    let mut out: usize = 0;
    let mut i: usize = 0;
    while i < nrows
        invariant
            g == cells(*tokens),
            nrows == g.len(),
            forall|r: int| 0 <= r < g.len() ==> (#[trigger] g[r]).len() == ncols,
            i <= nrows,
            out == grid_crosses(g, i as int),
            grid_crosses(g, nrows as int) <= usize::MAX,
        decreases nrows - i,
    {
        proof {
            lemma_grid_crosses_le(g, i as int + 1, nrows as int);
            lemma_row_crosses_bounds(g, i as int, 0, ncols as int);
        }
        let mut j: usize = 0;
        let ghost out0 = out;
        while j < ncols
            invariant
                g == cells(*tokens),
                nrows == g.len(),
                forall|r: int| 0 <= r < g.len() ==> (#[trigger] g[r]).len() == ncols,
                i < nrows,
                j <= ncols,
                out == out0 + row_crosses(g, i as int, j as int),
                out0 + row_crosses(g, i as int, ncols as int) <= usize::MAX,
                out0 == grid_crosses(g, i as int),
            decreases ncols - j,
        {
            proof {
                lemma_row_crosses_bounds(g, i as int, j as int + 1, ncols as int);
            }
            if i >= 1 && i + 1 < nrows && j >= 1 && j + 1 < ncols {
                if tokens.get(i, j) == 0x41 {
                    if check_location(tokens, i, j) {
                        out += 1;
                    }
                }
            }
            j += 1;
        }
        i += 1;
    }
    out
}

} // verus!
