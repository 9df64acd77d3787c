use vstd::prelude::*;
use vstd::string::StringSliceAdditionalSpecFns;
use crate::grid::{cells, ByteGrid};
use crate::text::{lines_of, split_lines, views_of};

verus! {

/// A push direction.
#[derive(Debug, PartialEq, Eq, Structural, Clone, Copy)]
pub enum Direction {
    Up,
    Down,
    Left,
    Right,
}

/// Where one step in this direction lands, or nothing off the top or
/// left edge; the bottom and right are not checked here.
pub open spec fn stepped(d: Direction, p: (int, int)) -> Option<(int, int)> {
    match d {
        Direction::Up => if p.0 == 0 {
            None
        } else {
            Some((p.0 - 1, p.1))
        },
        Direction::Left => if p.1 == 0 {
            None
        } else {
            Some((p.0, p.1 - 1))
        },
        Direction::Down => Some((p.0 + 1, p.1)),
        Direction::Right => Some((p.0, p.1 + 1)),
    }
}

impl Direction {
    /// Step from `position`, or nothing off the top or left edge.
    pub fn position_from(&self, position: &[usize; 2]) -> (r: Option<[usize; 2]>)
        requires
            position@[0] < usize::MAX,
            position@[1] < usize::MAX,
        ensures
            match r {
                Some(q) => stepped(*self, (position@[0] as int, position@[1] as int)) == Some(
                    (q@[0] as int, q@[1] as int),
                ),
                None => stepped(*self, (position@[0] as int, position@[1] as int)) is None,
            },
    {
        if matches!(self, Direction::Up) && position[0] == 0 || matches!(self, Direction::Left)
            && position[1] == 0 {
            None
        } else {
            match self {
                Direction::Up => Some([position[0] - 1, position[1]]),
                Direction::Down => Some([position[0] + 1, position[1]]),
                Direction::Left => Some([position[0], position[1] - 1]),
                Direction::Right => Some([position[0], position[1] + 1]),
            }
        }
    }
}

/// A map byte: wall, box, ground, or the robot.
pub open spec fn warehouse_byte_ok(b: u8) -> bool {
    b == 0x23 || b == 0x4f || b == 0x2e || b == 0x40
}

/// The map as stored: the robot's marker stands on clear ground.
pub open spec fn stored_line(s: Seq<u8>) -> Seq<u8> {
    s.map_values(|b: u8| if b == 0x40 { 0x2eu8 } else { b })
}

/// A move byte: up, down, left or right.
pub open spec fn move_byte_ok(b: u8) -> bool {
    b == 0x5e || b == 0x76 || b == 0x3c || b == 0x3e
}

/// The direction a move byte names.
pub open spec fn dir_of(b: u8) -> Direction {
    if b == 0x5e {
        Direction::Up
    } else if b == 0x76 {
        Direction::Down
    } else if b == 0x3c {
        Direction::Left
    } else {
        Direction::Right
    }
}

/// The index of the first blank line, or the line count.
pub open spec fn first_blank(lns: Seq<Seq<u8>>) -> int
    decreases lns.len(),
{
    if lns.len() == 0 {
        0
    } else if lns[0].len() == 0 {
        0
    } else {
        1 + first_blank(lns.drop_first())
    }
}

/// The move bytes of lines `from` up to `upto`, joined in order.
pub open spec fn move_bytes(lns: Seq<Seq<u8>>, from: int, upto: int) -> Seq<u8>
    decreases upto,
{
    if upto <= from || upto <= 0 || upto > lns.len() {
        Seq::<u8>::empty()
    } else {
        move_bytes(lns, from, upto - 1) + lns[upto - 1]
    }
}

/// The blank line comes no later than any blank line, and no earlier
/// than any nonblank prefix.
proof fn lemma_first_blank(lns: Seq<Seq<u8>>, i: int)
    requires
        0 <= i <= lns.len(),
        forall|q: int| 0 <= q < i ==> (#[trigger] lns[q]).len() != 0,
        i < lns.len() ==> lns[i].len() == 0,
    ensures
        first_blank(lns) == if i < lns.len() {
            i
        } else {
            lns.len() as int
        },
    decreases i,
{
    if i > 0 {
        assert(lns[0].len() != 0);
        assert(forall|q: int|
            0 <= q < i - 1 ==> (#[trigger] lns.drop_first()[q]).len() == lns[q + 1].len());
        lemma_first_blank(lns.drop_first(), i - 1);
    }
}

/// The warehouse: the map, where the robot stands, and the moves to
/// make.
#[derive(Debug)]
pub struct Puzzle {
    pub map: ByteGrid,
    pub robot: [usize; 2],
    pub directions: Vec<Direction>,
}

/// The lines form a warehouse the library takes: a nonempty rectangular
/// map of wall, box, ground and robot bytes before the first blank
/// line, both dimensions in memory range, and only move bytes after
/// it.
pub open spec fn warehouse_input_ok(lns: Seq<Seq<u8>>) -> bool {
    let blank = first_blank(lns);
    &&& blank >= 1
    &&& blank <= 0x10000000
    &&& lns[0].len() <= 0x10000000
    &&& forall|k: int| 0 <= k < blank ==> (#[trigger] lns[k]).len() == lns[0].len()
    &&& forall|k: int, c: int|
        0 <= k < blank && 0 <= c < lns[k].len() ==> warehouse_byte_ok(#[trigger] lns[k][c])
    &&& forall|i: int|
        0 <= i < move_bytes(lns, blank + 1, lns.len() as int).len() ==> move_byte_ok(
            #[trigger] move_bytes(lns, blank + 1, lns.len() as int)[i],
        )
}

/// Read the warehouse.  Succeeds exactly when the lines form a
/// warehouse the library takes.
pub fn parse(s: &str) -> (r: Option<Puzzle>)
    ensures
        r is Some <==> warehouse_input_ok(lines_of(s.spec_bytes())),
        r matches Some(p) ==> {
            let lns = lines_of(s.spec_bytes());
            let blank = first_blank(lns);
            let moves = move_bytes(lns, blank + 1, lns.len() as int);
            &&& cells(p.map).len() == blank
            &&& forall|k: int|
                0 <= k < blank ==> (#[trigger] cells(p.map)[k]) == stored_line(lns[k])
            &&& p.robot@[0] < blank && p.robot@[1] < lns[0].len()
            &&& (lns[p.robot@[0] as int][p.robot@[1] as int] == 0x40 || (p.robot@[0] == 0
                && p.robot@[1] == 0))
            &&& p.directions@.len() == moves.len()
            &&& forall|i: int|
                0 <= i < moves.len() ==> (#[trigger] p.directions@[i]) == dir_of(moves[i])
        },
{
    let lines = split_lines(s.as_bytes());
    let n = lines.len();
    let ghost lns = lines_of(s.spec_bytes());
    let mut blank: usize = 0;
    while blank < n && lines[blank].len() > 0
        invariant
            n == lines@.len(),
            views_of(lines@) == lns,
            blank <= n,
            forall|q: int| 0 <= q < blank ==> (#[trigger] lns[q]).len() != 0,
        decreases n - blank,
    {
        assert(lns[blank as int] == lines@[blank as int]@);
        blank += 1;
    }
    proof {
        if blank < n {
            assert(lns[blank as int] == lines@[blank as int]@);
        }
        lemma_first_blank(lns, blank as int);
    }
    if blank == 0 || blank > 0x10000000 {
        return None;
    }
    let ncols = lines[0].len();
    assert(lns[0] == lines@[0]@);
    if ncols > 0x10000000 {
        return None;
    }
    let mut flat: Vec<u8> = Vec::new();
    let mut robot: [usize; 2] = [0, 0];
    let mut k: usize = 0;
    while k < blank
        invariant
            n == lines@.len(),
            views_of(lines@) == lns,
            first_blank(lns) == blank,
            1 <= blank <= n,
            blank <= 0x10000000,
            ncols == lns[0].len(),
            ncols <= 0x10000000,
            k <= blank,
            flat@.len() == k * ncols,
            forall|q: int| 0 <= q < k ==> (#[trigger] lns[q]).len() == ncols,
            forall|q: int|
                0 <= q < k ==> #[trigger] flat@.subrange(q * ncols, q * ncols + ncols)
                    =~= stored_line(lns[q]),
            forall|q: int, c: int|
                0 <= q < k && 0 <= c < ncols ==> warehouse_byte_ok(#[trigger] lns[q][c]),
            robot@[0] < blank && robot@[1] < vstd::math::max(ncols as int, 1),
            lns[robot@[0] as int][robot@[1] as int] == 0x40 || (robot@[0] == 0 && robot@[1] == 0),
        decreases blank - k,
    {
        assert(lns[k as int] == lines@[k as int]@);
        if lines[k].len() != ncols {
            proof {
                assert(!warehouse_input_ok(lns));
            }
            return None;
        }
        let ghost before = flat@;
        let line = &lines[k];
        let mut c: usize = 0;
        while c < ncols
            invariant
                n == lines@.len(),
                k < blank <= n,
                line == &lines@[k as int],
                lns[k as int] == lines@[k as int]@,
                ncols == line@.len(),
                c <= ncols,
                flat@ == before + stored_line(line@).take(c as int),
                forall|w: int| 0 <= w < c ==> warehouse_byte_ok(#[trigger] line@[w]),
                robot@[0] < blank && robot@[1] < vstd::math::max(ncols as int, 1),
                lns[robot@[0] as int][robot@[1] as int] == 0x40 || (robot@[0] == 0 && robot@[1]
                    == 0),
            decreases ncols - c,
        {
            let b = line[c];
            if b == 0x23 || b == 0x4f || b == 0x2e {
                flat.push(b);
            } else if b == 0x40 {
                flat.push(0x2e);
                robot = [k, c];
            } else {
                proof {
                    assert(!warehouse_byte_ok(lns[k as int][c as int]));
                    assert(!warehouse_input_ok(lns));
                }
                return None;
            }
            assert(flat@ =~= before + stored_line(line@).take(c as int + 1));
            c += 1;
        }
        proof {
            assert(stored_line(line@).take(ncols as int) == stored_line(line@));
            assert(flat@.subrange(k as int * ncols, k as int * ncols + ncols) =~= stored_line(
                lns[k as int],
            ));
            assert forall|q: int|
                0 <= q < k implies #[trigger] flat@.subrange(q * ncols, q * ncols + ncols)
                    =~= before.subrange(q * ncols, q * ncols + ncols) by {
                assert(q * ncols + ncols <= k * ncols) by (nonlinear_arith)
                    requires
                        0 <= q < k,
                        ncols >= 0,
                ;
            }
            assert((k + 1) * ncols == k * ncols + ncols) by (nonlinear_arith);
        }
        k += 1;
    }
    let mut directions: Vec<Direction> = Vec::new();
    let mut li: usize = blank + 1;
    if li > n {
        li = n;
    }
    assert(move_bytes(lns, blank as int + 1, li as int) =~= Seq::<u8>::empty());
    while li < n
        invariant
            n == lines@.len(),
            views_of(lines@) == lns,
            first_blank(lns) == blank,
            blank + 1 <= n + 1,
            blank < li || li == n || li == blank + 1,
            blank as int + 1 <= li as int || li == n,
            li <= n,
            directions@.len() == move_bytes(lns, blank as int + 1, li as int).len(),
            forall|i: int|
                0 <= i < directions@.len() ==> move_byte_ok(
                    #[trigger] move_bytes(lns, blank as int + 1, li as int)[i],
                ) && directions@[i] == dir_of(move_bytes(lns, blank as int + 1, li as int)[i]),
        decreases n - li,
    {
        assert(lns[li as int] == lines@[li as int]@);
        let line = &lines[li];
        let m = line.len();
        let ghost prefix = move_bytes(lns, blank as int + 1, li as int);
        let mut c: usize = 0;
        while c < m
            invariant
                n == lines@.len(),
                li < n,
                line == &lines@[li as int],
                lns[li as int] == lines@[li as int]@,
                m == line@.len(),
                c <= m,
                directions@.len() == prefix.len() + c,
                forall|i: int|
                    0 <= i < prefix.len() ==> move_byte_ok(#[trigger] prefix[i]) && directions@[i]
                        == dir_of(prefix[i]),
                forall|w: int|
                    0 <= w < c ==> move_byte_ok(#[trigger] line@[w]) && directions@[prefix.len()
                        + w] == dir_of(line@[w]),
            decreases m - c,
        {
            let b = line[c];
            let d = if b == 0x5e {
                Direction::Up
            } else if b == 0x76 {
                Direction::Down
            } else if b == 0x3c {
                Direction::Left
            } else if b == 0x3e {
                Direction::Right
            } else {
                proof {
                    lemma_move_bytes_member(lns, blank as int + 1, li as int, c as int, n as int);
                    assert(!warehouse_input_ok(lns));
                }
                return None;
            };
            assert(d == dir_of(line@[c as int]));
            directions.push(d);
            c += 1;
        }
        proof {
            assert(move_bytes(lns, blank as int + 1, li as int + 1) == prefix + lns[li as int]);
            assert forall|i: int|
                0 <= i < directions@.len() implies move_byte_ok(
                #[trigger] move_bytes(lns, blank as int + 1, li as int + 1)[i],
            ) && directions@[i] == dir_of(
                move_bytes(lns, blank as int + 1, li as int + 1)[i],
            ) by {
                if i < prefix.len() {
                    assert(move_bytes(lns, blank as int + 1, li as int + 1)[i] == prefix[i]);
                } else {
                    assert(move_bytes(lns, blank as int + 1, li as int + 1)[i]
                        == lns[li as int][i - prefix.len()]);
                }
            }
        }
        li += 1;
    }
    proof {
        assert(blank * ncols <= 0x7fffffffffffffff) by (nonlinear_arith)
            requires
                0 <= blank <= 0x10000000,
                0 <= ncols <= 0x10000000,
        ;
        assert(warehouse_input_ok(lns));
    }
    let map = ByteGrid::new(blank, ncols, flat);
    let p = Puzzle { map, robot, directions };
    assert(cells(p.map).len() == blank);
    Some(p)
}

/// A byte of a move line stands in the joined move bytes.
proof fn lemma_move_bytes_member(lns: Seq<Seq<u8>>, from: int, li: int, c: int, n: int)
    requires
        0 <= from,
        from <= li < n <= lns.len(),
        0 <= c < lns[li].len(),
    ensures
        exists|i: int|
            0 <= i < move_bytes(lns, from, n).len() && #[trigger] move_bytes(lns, from, n)[i]
                == lns[li][c],
    decreases n,
{
    if li == n - 1 {
        let i = move_bytes(lns, from, n - 1).len() + c;
        assert(move_bytes(lns, from, n)[i] == lns[li][c]);
    } else {
        lemma_move_bytes_member(lns, from, li, c, n - 1);
        let i = choose|i: int|
            0 <= i < move_bytes(lns, from, n - 1).len() && #[trigger] move_bytes(lns, from, n - 1)[
            i] == lns[li][c];
        assert(move_bytes(lns, from, n)[i] == lns[li][c]);
    }
}

} // verus!
