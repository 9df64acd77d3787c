use vstd::prelude::*;
use vstd::string::StringSliceAdditionalSpecFns;
use crate::grid::{cells, ByteGrid};
use crate::text::{lines_of, split_lines, views_of};

verus! {

/// The letters the word search knows; anything else reads as a blank.
pub open spec fn token_byte(b: u8) -> u8 {
    if b == 0x58 || b == 0x4d || b == 0x41 || b == 0x53 {
        b
    } else {
        0x2e
    }
}

/// A line of the puzzle reduced to its tokens.
pub open spec fn norm_line(s: Seq<u8>) -> Seq<u8> {
    s.map_values(|b: u8| token_byte(b))
}

/// The lines form a grid the library takes: none at all, or rows of
/// one shared length with both dimensions in memory range.
pub open spec fn grid_input_ok(lns: Seq<Seq<u8>>) -> bool {
    ||| lns.len() == 0
    ||| (lns.len() <= 0x10000000 && lns[0].len() <= 0x10000000 && (forall|k: int|
        0 <= k < lns.len() ==> (#[trigger] lns[k]).len() == lns[0].len()))
}

/// Keep a letter of the word search, blank anything else.
fn normalize(b: u8) -> (r: u8)
    ensures
        r == token_byte(b),
{
    if b == 0x58 || b == 0x4d || b == 0x41 || b == 0x53 {
        b
    } else {
        0x2e
    }
}

/// Read the letter grid.  Succeeds exactly when every line is as long
/// as the first and the grid fits in memory.
pub fn extract(s: &str) -> (r: Option<ByteGrid>)
    ensures
        r is Some <==> grid_input_ok(lines_of(s.spec_bytes())),
        r matches Some(g) ==> {
            &&& cells(g).len() == lines_of(s.spec_bytes()).len()
            &&& forall|k: int|
                0 <= k < cells(g).len() ==> (#[trigger] cells(g)[k]) == norm_line(
                    lines_of(s.spec_bytes())[k],
                )
        },
{
    let lines = split_lines(s.as_bytes());
    let nrows = lines.len();
    if nrows == 0 {
        let flat: Vec<u8> = Vec::new();
        let g = ByteGrid::new(0, 0, flat);
        return Some(g);
    }
    let ncols = lines[0].len();
    assert(lines_of(s.spec_bytes())[0] == lines@[0]@);
    if ncols > 0x10000000 || nrows > 0x10000000 {
        return None;
    }
    let mut flat: Vec<u8> = Vec::new();
    let mut k: usize = 0;
    while k < nrows
        invariant
            nrows == lines@.len(),
            views_of(lines@) == lines_of(s.spec_bytes()),
            nrows <= 0x10000000,
            ncols <= 0x10000000,
            k <= nrows,
            ncols == lines@[0]@.len(),
            flat@.len() == k * ncols,
            forall|q: int| 0 <= q < k ==> (#[trigger] lines@[q])@.len() == ncols,
            forall|q: int|
                0 <= q < k ==> #[trigger] flat@.subrange(q * ncols, q * ncols + ncols)
                    =~= norm_line(lines@[q]@),
        decreases nrows - k,
    {
        if lines[k].len() != ncols {
            proof {
                assert(lines_of(s.spec_bytes())[k as int] == lines@[k as int]@);
                assert(!grid_input_ok(lines_of(s.spec_bytes())));
            }
            return None;
        }
        let ghost before = flat@;
        let line = &lines[k];
        let mut c: usize = 0;
        while c < ncols
            invariant
                ncols == line@.len(),
                c <= ncols,
                flat@ == before + norm_line(line@).take(c as int),
            decreases ncols - c,
        {
            flat.push(normalize(line[c]));
            assert(flat@ =~= before + norm_line(line@).take(c as int + 1));
            c += 1;
        }
        proof {
            assert(norm_line(line@).take(ncols as int) == norm_line(line@));
            assert(flat@.subrange(k as int * ncols, k as int * ncols + ncols) =~= norm_line(
                lines@[k as int]@,
            ));
            assert forall|q: int|
                0 <= q < k implies #[trigger] flat@.subrange(q * ncols, q * ncols + ncols)
                    =~= before.subrange(q * ncols, q * ncols + ncols) by {
                assert(q * ncols + ncols <= k * ncols) by (nonlinear_arith)
                    requires
                        0 <= q < k,
                        ncols >= 0,
                ;
            }
            assert((k + 1) * ncols == k * ncols + ncols) by (nonlinear_arith);
        }
        k += 1;
    }
    proof {
        assert(nrows * ncols <= 0x7fffffffffffffff) by (nonlinear_arith)
            requires
                nrows <= 0x10000000,
                ncols <= 0x10000000,
        ;
    }
    let g = ByteGrid::new(nrows, ncols, flat);
    proof {
        assert forall|k: int|
            0 <= k < lines_of(s.spec_bytes()).len() implies (#[trigger] lines_of(
            s.spec_bytes(),
        )[k]).len() == lines_of(s.spec_bytes())[0].len() by {
            assert(lines_of(s.spec_bytes())[k] == lines@[k]@);
        }
        assert(grid_input_ok(lines_of(s.spec_bytes())));
    }
    Some(g)
}

/// The eight directions a word can run in.
#[derive(Debug)]
pub enum Direction {
    Up,
    Down,
    Left,
    Right,
    UpRight,
    UpLeft,
    DownRight,
    DownLeft,
}

impl Direction {
    /// The row step of this direction.
    pub open spec fn di(self) -> int {
        match self {
            Direction::Up => -1,
            Direction::Down => 1,
            Direction::Left => 0,
            Direction::Right => 0,
            Direction::UpRight => -1,
            Direction::UpLeft => -1,
            Direction::DownRight => 1,
            Direction::DownLeft => 1,
        }
    }

    /// The column step of this direction.
    pub open spec fn dj(self) -> int {
        match self {
            Direction::Up => 0,
            Direction::Down => 0,
            Direction::Left => -1,
            Direction::Right => 1,
            Direction::UpRight => 1,
            Direction::UpLeft => -1,
            Direction::DownRight => 1,
            Direction::DownLeft => -1,
        }
    }
}

/// The given cell lies on the grid and holds byte `b`.
pub open spec fn cell_is(g: Seq<Seq<u8>>, i: int, j: int, b: u8) -> bool {
    &&& 0 <= i < g.len()
    &&& 0 <= j < g[i].len()
    &&& g[i][j] == b
}

/// Starting next to `(i, j)`, the letters M, A, S run in direction `d`.
pub open spec fn mas_runs(g: Seq<Seq<u8>>, i: int, j: int, d: Direction) -> bool {
    &&& cell_is(g, i + d.di(), j + d.dj(), 0x4d)
    &&& cell_is(g, i + 2 * d.di(), j + 2 * d.dj(), 0x41)
    &&& cell_is(g, i + 3 * d.di(), j + 3 * d.dj(), 0x53)
}

/// Check one direction for the tail M, A, S of the word.
pub fn check_location_direction(tokens: &ByteGrid, i: usize, j: usize, direction: &Direction) -> (r:
    bool)
    requires
        i < cells(*tokens).len(),
        j < cells(*tokens)[i as int].len(),
    ensures
        r == mas_runs(cells(*tokens), i as int, j as int, *direction),
{
    let (nrows, ncols) = tokens.dim();
    let mut off: usize = 1;
    while off <= 3
        invariant
            i < cells(*tokens).len() == nrows,
            j < cells(*tokens)[i as int].len(),
            forall|r: int|
                0 <= r < cells(*tokens).len() ==> (#[trigger] cells(*tokens)[r]).len() == ncols,
            1 <= off <= 4,
            forall|o: int|
                1 <= o < off ==> cell_is(
                    cells(*tokens),
                    i + o * direction.di(),
                    j + o * direction.dj(),
                    expected_letter(o),
                ),
        decreases 4 - off,
    {
        let di = match direction {
            Direction::Up => -1i64,
            Direction::Down => 1,
            Direction::Left => 0,
            Direction::Right => 0,
            Direction::UpRight => -1,
            Direction::UpLeft => -1,
            Direction::DownRight => 1,
            Direction::DownLeft => 1,
        };
        let dj = match direction {
            Direction::Up => 0i64,
            Direction::Down => 0,
            Direction::Left => -1,
            Direction::Right => 1,
            Direction::UpRight => 1,
            Direction::UpLeft => -1,
            Direction::DownRight => 1,
            Direction::DownLeft => -1,
        };
        proof {
            assert(di as int == direction.di());
            assert(dj as int == direction.dj());
        }
        let row_ok = if di < 0 {
            i >= off
        } else if di == 0 {
            true
        } else {
            i < nrows && nrows - i > off
        };
        if !row_ok {
            return false;
        }
        let col_ok = if dj < 0 {
            j >= off
        } else if dj == 0 {
            true
        } else {
            j < ncols && ncols - j > off
        };
        if !col_ok {
            return false;
        }
        let ti = if di < 0 {
            i - off
        } else if di == 0 {
            i
        } else {
            i + off
        };
        let tj = if dj < 0 {
            j - off
        } else if dj == 0 {
            j
        } else {
            j + off
        };
        let want: u8 = if off == 1 {
            0x4d
        } else if off == 2 {
            0x41
        } else {
            0x53
        };
        assert(want == expected_letter(off as int));
        if tokens.get(ti, tj) != want {
            return false;
        }
        off += 1;
    }
    proof {
        let g = cells(*tokens);
        assert(cell_is(g, i + 1 * direction.di(), j + 1 * direction.dj(), expected_letter(1)));
        assert(cell_is(g, i + 2 * direction.di(), j + 2 * direction.dj(), expected_letter(2)));
        assert(cell_is(g, i + 3 * direction.di(), j + 3 * direction.dj(), expected_letter(3)));
        assert(1 * direction.di() == direction.di() && 1 * direction.dj() == direction.dj());
    }
    true
}

/// The letter the word wants at offset `o`: M, then A, then S.
pub open spec fn expected_letter(o: int) -> u8 {
    if o == 1 {
        0x4d
    } else if o == 2 {
        0x41
    } else {
        0x53
    }
}

/// How many of the eight directions carry the word from `(i, j)`.
pub open spec fn xmas_count(g: Seq<Seq<u8>>, i: int, j: int) -> int {
    (if mas_runs(g, i, j, Direction::Up) {
        1int
    } else {
        0int
    }) + (if mas_runs(g, i, j, Direction::Down) {
        1int
    } else {
        0int
    }) + (if mas_runs(g, i, j, Direction::Left) {
        1int
    } else {
        0int
    }) + (if mas_runs(g, i, j, Direction::Right) {
        1int
    } else {
        0int
    }) + (if mas_runs(g, i, j, Direction::UpRight) {
        1int
    } else {
        0int
    }) + (if mas_runs(g, i, j, Direction::UpLeft) {
        1int
    } else {
        0int
    }) + (if mas_runs(g, i, j, Direction::DownRight) {
        1int
    } else {
        0int
    }) + (if mas_runs(g, i, j, Direction::DownLeft) {
        1int
    } else {
        0int
    })
}

/// Count the directions that spell the word from `(i, j)`.
pub fn check_location(tokens: &ByteGrid, i: usize, j: usize) -> (r: usize)
    requires
        i < cells(*tokens).len(),
        j < cells(*tokens)[i as int].len(),
    ensures
        r == xmas_count(cells(*tokens), i as int, j as int),
{
    let mut out: usize = 0;
    if check_location_direction(tokens, i, j, &Direction::Up) {
        out += 1;
    }
    if check_location_direction(tokens, i, j, &Direction::Down) {
        out += 1;
    }
    if check_location_direction(tokens, i, j, &Direction::Left) {
        out += 1;
    }
    if check_location_direction(tokens, i, j, &Direction::Right) {
        out += 1;
    }
    if check_location_direction(tokens, i, j, &Direction::UpRight) {
        out += 1;
    }
    if check_location_direction(tokens, i, j, &Direction::UpLeft) {
        out += 1;
    }
    if check_location_direction(tokens, i, j, &Direction::DownRight) {
        out += 1;
    }
    if check_location_direction(tokens, i, j, &Direction::DownLeft) {
        out += 1;
    }
    out
}

/// The word starts found in row `i` left of column `j`.
pub open spec fn row_count(g: Seq<Seq<u8>>, i: int, j: int) -> int
    decreases j,
{
    if j <= 0 {
        0
    } else {
        row_count(g, i, j - 1) + if cell_is(g, i, j - 1, 0x58) {
            xmas_count(g, i, j - 1)
        } else {
            0
        }
    }
}

/// The word starts found above row `i`.
pub open spec fn grid_count(g: Seq<Seq<u8>>, i: int) -> int
    decreases i,
{
    if i <= 0 {
        0
    } else {
        grid_count(g, i - 1) + row_count(g, i - 1, g[i - 1].len() as int)
    }
}

/// Direction counts are small.
proof fn lemma_xmas_count_bounds(g: Seq<Seq<u8>>, i: int, j: int)
    ensures
        0 <= xmas_count(g, i, j) <= 8,
{
}

/// Row counts stay within eight per cell.
proof fn lemma_row_count_bounds(g: Seq<Seq<u8>>, i: int, j: int)
    requires
        j >= 0,
    ensures
        0 <= row_count(g, i, j) <= 8 * j,
    decreases j,
{
    if j > 0 {
        lemma_row_count_bounds(g, i, j - 1);
        lemma_xmas_count_bounds(g, i, j - 1);
    }
}

/// Count every start of the word in the whole grid.
pub fn process(tokens: &ByteGrid) -> (r: usize)
    requires
        grid_count(cells(*tokens), cells(*tokens).len() as int) <= usize::MAX,
    ensures
        r == grid_count(cells(*tokens), cells(*tokens).len() as int),
{
    let (nrows, ncols) = tokens.dim();
    let ghost g = cells(*tokens);
    let mut out: usize = 0;
    let mut i: usize = 0;
    while i < nrows
        invariant
            g == cells(*tokens),
            nrows == g.len(),
            forall|r: int| 0 <= r < g.len() ==> (#[trigger] g[r]).len() == ncols,
            i <= nrows,
            out == grid_count(g, i as int),
            grid_count(g, nrows as int) <= usize::MAX,
        decreases nrows - i,
    {
        proof {
            lemma_grid_partial_le(g, i as int + 1, nrows as int);
            lemma_row_count_bounds(g, i as int, ncols as int);
        }
        let mut j: usize = 0;
        let ghost out0 = out;
        while j < ncols
            invariant
                g == cells(*tokens),
                nrows == g.len(),
                forall|r: int| 0 <= r < g.len() ==> (#[trigger] g[r]).len() == ncols,
                i < nrows,
                j <= ncols,
                out == out0 + row_count(g, i as int, j as int),
                out0 + row_count(g, i as int, ncols as int) <= usize::MAX,
                grid_count(g, nrows as int) <= usize::MAX,
                out0 == grid_count(g, i as int),
            decreases ncols - j,
        {
            proof {
                lemma_row_partial_le(g, i as int, j as int + 1, ncols as int);
            }
            if tokens.get(i, j) == 0x58 {
                let c = check_location(tokens, i, j);
                out += c;
            }
            j += 1;
        }
        proof {
            lemma_grid_partial_le(g, i as int + 1, nrows as int);
        }
        i += 1;
    }
    out
}

/// Row prefix counts never shrink.
proof fn lemma_row_partial_le(g: Seq<Seq<u8>>, i: int, j: int, n: int)
    requires
        0 <= j <= n,
    ensures
        row_count(g, i, j) <= row_count(g, i, n),
    decreases n - j,
{
    if j < n {
        lemma_xmas_count_bounds(g, i, j);
        lemma_row_partial_le(g, i, j + 1, n);
    }
}

/// Grid prefix counts never shrink.
proof fn lemma_grid_partial_le(g: Seq<Seq<u8>>, i: int, n: int)
    requires
        0 <= i <= n,
    ensures
        grid_count(g, i) <= grid_count(g, n),
    decreases n - i,
{
    if i < n {
        lemma_row_count_bounds(g, i, g[i].len() as int);
        lemma_grid_partial_le(g, i + 1, n);
    }
}

} // verus!
