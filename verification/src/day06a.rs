use vstd::prelude::*;
use vstd::string::StringSliceAdditionalSpecFns;
use crate::grid::{cells, ByteGrid};
use crate::text::{lines_of, split_lines, views_of};

verus! {

/// A map cell: clear ground or an obstruction.
pub open spec fn blocked_at(g: Seq<Seq<u8>>, i: int, j: int) -> bool {
    g[i][j] == 0x23
}

/// The four directions the guard can face.
#[derive(Debug, PartialEq, Eq, Copy, Clone, Structural)]
pub enum Direction {
    Left,
    Right,
    Up,
    Down,
}

/// The row and column change of one step in a direction.
pub open spec fn change_of(d: Direction) -> (int, int) {
    match d {
        Direction::Left => (0, -1),
        Direction::Right => (0, 1),
        Direction::Up => (-1, 0),
        Direction::Down => (1, 0),
    }
}

/// The direction after a right turn.
pub open spec fn turned(d: Direction) -> Direction {
    match d {
        Direction::Left => Direction::Up,
        Direction::Right => Direction::Down,
        Direction::Up => Direction::Right,
        Direction::Down => Direction::Left,
    }
}

/// The row and column change of one step in a direction.
pub fn position_change(direction: &Direction) -> (r: [i64; 2])
    ensures
        r@[0] == change_of(*direction).0,
        r@[1] == change_of(*direction).1,
{
    match direction {
        Direction::Left => [0, -1],
        Direction::Right => [0, 1],
        Direction::Up => [-1, 0],
        Direction::Down => [1, 0],
    }
}

/// Turn right.
pub fn rotate_right(direction: &Direction) -> (r: Direction)
    ensures
        r == turned(*direction),
{
    match direction {
        Direction::Left => Direction::Up,
        Direction::Right => Direction::Down,
        Direction::Up => Direction::Right,
        Direction::Down => Direction::Left,
    }
}

/// One step from `p` in direction `d` on an `nrows` by `ncols` map, or
/// nothing off the edge.
pub open spec fn moved(p: (int, int), d: Direction, nrows: int, ncols: int) -> Option<(int, int)> {
    let q = (p.0 + change_of(d).0, p.1 + change_of(d).1);
    if 0 <= q.0 < nrows && 0 <= q.1 < ncols {
        Some(q)
    } else {
        None
    }
}

/// Step from `position` in `direction`, or nothing off the edge of the
/// map shape.
pub fn update_position(position: [usize; 2], direction: Direction, shape: &[usize]) -> (r: Option<
    [usize; 2],
>)
    requires
        shape@.len() == 2,
        position@[0] < shape@[0],
        position@[1] < shape@[1],
        shape@[0] <= 0x7fffffffffffffff,
        shape@[1] <= 0x7fffffffffffffff,
    ensures
        match r {
            Some(q) => moved(
                (position@[0] as int, position@[1] as int),
                direction,
                shape@[0] as int,
                shape@[1] as int,
            ) == Some((q@[0] as int, q@[1] as int)),
            None => moved(
                (position@[0] as int, position@[1] as int),
                direction,
                shape@[0] as int,
                shape@[1] as int,
            ) is None,
        },
{
    let change = position_change(&direction);
    let pi = position[0] as i64;
    let pj = position[1] as i64;
    let ni = pi + change[0];
    let nj = pj + change[1];
    if ni < 0 || nj < 0 {
        return None;
    }
    let ni = ni as usize;
    let nj = nj as usize;
    if ni >= shape[0] || nj >= shape[1] {
        return None;
    }
    Some([ni, nj])
}

/// The guard's map, and where the guard stands facing which way.
#[derive(Debug)]
pub struct Puzzle {
    pub map: ByteGrid,
    pub position: [usize; 2],
    pub direction: Direction,
}

impl Puzzle {
    /// The map is rectangular with the guard on it.
    pub open spec fn wf(self) -> bool {
        &&& cells(self.map).len() > 0
        &&& cells(self.map).len() <= 0x7fffffffffffffff
        &&& cells(self.map)[0].len() <= 0x7fffffffffffffff
        &&& self.position@[0] < cells(self.map).len()
        &&& self.position@[1] < cells(self.map)[0].len()
    }

    /// What one update does from `p` facing `d`: walk forward if clear,
    /// else turn right once and walk; off the map the guard is gone.
    pub open spec fn step_of(self, p: (int, int), d: Direction) -> Option<((int, int), Direction)> {
        let g = cells(self.map);
        let nrows = g.len() as int;
        let ncols = g[0].len() as int;
        match moved(p, d, nrows, ncols) {
            None => None,
            Some(q) => if !blocked_at(g, q.0, q.1) {
                Some((q, d))
            } else {
                match moved(p, turned(d), nrows, ncols) {
                    None => None,
                    Some(q2) => Some((q2, turned(d))),
                }
            },
        }
    }

    /// Walk forward, or turn right once and walk; nothing when that
    /// leaves the map.
    pub fn update(&self, position: [usize; 2], direction: Direction) -> (r: Option<
        ([usize; 2], Direction),
    >)
        requires
            self.wf(),
            position@[0] < cells(self.map).len(),
            position@[1] < cells(self.map)[0].len(),
        ensures
            match r {
                Some(pd) => self.step_of(
                    (position@[0] as int, position@[1] as int),
                    direction,
                ) == Some(((pd.0@[0] as int, pd.0@[1] as int), pd.1)),
                None => self.step_of((position@[0] as int, position@[1] as int), direction)
                    is None,
            },
            r matches Some(pd) ==> pd.0@[0] < cells(self.map).len() && pd.0@[1] < cells(
                self.map,
            )[0].len(),
    {
        let (nrows, ncols) = self.map.dim();
        let shape: [usize; 2] = [nrows, ncols];
        let new_position = match update_position(position, direction, &shape) {
            Some(q) => q,
            None => {
                return None;
            },
        };
        let mut blocked = true;
        if self.map.get(new_position[0], new_position[1]) != 0x23 {
            blocked = false;
        }
        if !blocked {
            return Some((new_position, direction));
        }
        let new_direction = rotate_right(&direction);
        let new_position = match update_position(position, new_direction, &shape) {
            Some(q) => q,
            None => {
                return None;
            },
        };
        Some((new_position, new_direction))
    }
}

/// The guard's state after `k` updates, or nothing once gone.
pub open spec fn state_at(p: Puzzle, k: nat) -> Option<((int, int), Direction)>
    decreases k,
{
    if k == 0 {
        Some(((p.position@[0] as int, p.position@[1] as int), p.direction))
    } else {
        match state_at(p, (k - 1) as nat) {
            None => None,
            Some(pd) => p.step_of(pd.0, pd.1),
        }
    }
}

/// The distinct positions stood on within the first `k` updates, in
/// order of first visit.
pub open spec fn visited_upto(p: Puzzle, k: nat) -> Seq<(int, int)>
    decreases k,
{
    if k == 0 {
        seq![(p.position@[0] as int, p.position@[1] as int)]
    } else {
        let prev = visited_upto(p, (k - 1) as nat);
        match state_at(p, k) {
            None => prev,
            Some(pd) => if prev.contains(pd.0) {
                prev
            } else {
                prev.push(pd.0)
            },
        }
    }
}

impl Puzzle {
    /// Walk the guard off the map, allowing at most `max_steps` updates,
    /// and count the distinct positions stood on.  Nothing when the
    /// guard is still walking after the allowance.
    pub fn process(&self, max_steps: usize) -> (r: Option<usize>)
        requires
            self.wf(),
        ensures
            match r {
                Some(cnt) => exists|k: int|
                    0 <= k <= max_steps && (#[trigger] state_at(*self, (k + 1) as nat)) is None
                        && cnt == visited_upto(*self, k as nat).len(),
                None => state_at(*self, max_steps as nat) is Some,
            },
    {
        let mut visited: Vec<[usize; 2]> = Vec::new();
        let mut position = self.position;
        let mut direction = self.direction;
        visited.push(position);
        assert(visited@.map_values(|q: [usize; 2]| (q@[0] as int, q@[1] as int)) =~= visited_upto(
            *self,
            0,
        ));
        let mut steps: usize = 0;
        loop
            invariant
                self.wf(),
                steps <= max_steps,
                state_at(*self, steps as nat) == Some(
                    ((position@[0] as int, position@[1] as int), direction),
                ),
                position@[0] < cells(self.map).len(),
                position@[1] < cells(self.map)[0].len(),
                visited@.map_values(|q: [usize; 2]| (q@[0] as int, q@[1] as int)) == visited_upto(
                    *self,
                    steps as nat,
                ),
            decreases max_steps - steps,
        {
            let next = self.update(position, direction);
            match next {
                None => {
                    assert(state_at(*self, (steps + 1) as nat) is None);
                    return Some(visited.len());
                },
                Some(pd) => {
                    position = pd.0;
                    direction = pd.1;
                    if steps >= max_steps {
                        return None;
                    }
                    steps += 1;
                    assert(state_at(*self, steps as nat) == Some(
                        ((position@[0] as int, position@[1] as int), direction),
                    ));
                    let ghost before = visited@.map_values(
                        |q: [usize; 2]| (q@[0] as int, q@[1] as int),
                    );
                    let n = visited.len();
                    let mut seen = false;
                    let mut t: usize = 0;
                    while t < n && !seen
                        invariant
                            n == visited@.len(),
                            before == visited@.map_values(
                                |q: [usize; 2]| (q@[0] as int, q@[1] as int),
                            ),
                            t <= n,
                            seen ==> before.contains((position@[0] as int, position@[1] as int)),
                            !seen ==> forall|u: int|
                                0 <= u < t ==> before[u] != (
                                position@[0] as int,
                                position@[1] as int,
                            ),
                        decreases n - t, (if seen { 0int } else { 1int }),
                    {
                        if visited[t][0] == position[0] && visited[t][1] == position[1] {
                            assert(before[t as int] == (
                                position@[0] as int,
                                position@[1] as int,
                            ));
                            seen = true;
                        } else {
                            assert(before[t as int] != (
                                position@[0] as int,
                                position@[1] as int,
                            ));
                            t += 1;
                        }
                    }
                    if !seen {
                        assert(!before.contains((position@[0] as int, position@[1] as int)));
                        visited.push(position);
                        assert(visited@.map_values(
                            |q: [usize; 2]| (q@[0] as int, q@[1] as int),
                        ) =~= before.push((position@[0] as int, position@[1] as int)));
                    }
                },
            }
        }
    }
}

/// A map byte: ground, an obstruction, or the guard.
pub open spec fn map_byte_ok(b: u8) -> bool {
    b == 0x2e || b == 0x23 || b == 0x5e
}

/// The line as stored: the guard's marker stands on clear ground.
pub open spec fn stored_line(s: Seq<u8>) -> Seq<u8> {
    s.map_values(|b: u8| if b == 0x5e { 0x2eu8 } else { b })
}

/// Read the guard's map.  Succeeds exactly when there is at least one
/// line, every line is as long as the first and nonempty, every byte is
/// ground, obstruction or guard, and the grid fits in memory.
pub fn parse(s: &str) -> (r: Option<Puzzle>)
    ensures
        r matches Some(p) ==> {
            let lines = lines_of(s.spec_bytes());
            &&& p.wf()
            &&& cells(p.map).len() == lines.len()
            &&& forall|k: int|
                0 <= k < lines.len() ==> (#[trigger] cells(p.map)[k]) == stored_line(lines[k])
            &&& p.direction == Direction::Up
            &&& (lines[p.position@[0] as int][p.position@[1] as int] == 0x5e || (p.position@[0]
                == 0 && p.position@[1] == 0))
        },
        r is None ==> {
            let lines = lines_of(s.spec_bytes());
            ||| lines.len() == 0
            ||| lines.len() > 0x10000000
            ||| lines[0].len() == 0
            ||| lines[0].len() > 0x10000000
            ||| exists|k: int| 0 <= k < lines.len() && (#[trigger] lines[k]).len() != lines[0].len()
            ||| exists|k: int, c: int|
                0 <= k < lines.len() && 0 <= c < lines[k].len() && !map_byte_ok(
                    #[trigger] lines[k][c],
                )
        },
{
    let lines = split_lines(s.as_bytes());
    let nrows = lines.len();
    if nrows == 0 || nrows > 0x10000000 {
        return None;
    }
    let ncols = lines[0].len();
    if ncols == 0 || ncols > 0x10000000 {
        return None;
    }
    let mut flat: Vec<u8> = Vec::new();
    let mut position: [usize; 2] = [0, 0];
    let mut k: usize = 0;
    while k < nrows
        invariant
            nrows == lines@.len(),
            views_of(lines@) == lines_of(s.spec_bytes()),
            1 <= nrows <= 0x10000000,
            1 <= ncols <= 0x10000000,
            k <= nrows,
            flat@.len() == k * ncols,
            forall|q: int|
                0 <= q < k ==> #[trigger] flat@.subrange(q * ncols, q * ncols + ncols)
                    =~= stored_line(lines@[q]@),
            position@[0] < nrows && position@[1] < ncols,
            lines@[position@[0] as int]@[position@[1] as int] == 0x5e || (position@[0] == 0
                && position@[1] == 0),
        decreases nrows - k,
    {
        if lines[k].len() != ncols {
            proof {
                let lns = lines_of(s.spec_bytes());
                assert(lns[k as int] == lines@[k as int]@);
                assert(lns[0] == lines@[0]@);
                assert(lns[k as int].len() != lns[0].len());
            }
            return None;
        }
        let ghost before = flat@;
        let line = &lines[k];
        let mut c: usize = 0;
        while c < ncols
            invariant
                nrows == lines@.len(),
                k < nrows,
                line == &lines@[k as int],
                ncols == line@.len(),
                c <= ncols,
                flat@ == before + stored_line(line@).take(c as int),
                position@[0] < nrows && position@[1] < ncols,
                lines@[position@[0] as int]@[position@[1] as int] == 0x5e || (position@[0] == 0
                    && position@[1] == 0),
            decreases ncols - c,
        {
            let b = line[c];
            if b == 0x2e || b == 0x23 {
                flat.push(b);
            } else if b == 0x5e {
                flat.push(0x2e);
                position = [k, c];
            } else {
                proof {
                    let lns = lines_of(s.spec_bytes());
                    assert(lns[k as int] == lines@[k as int]@);
                    assert(!map_byte_ok(lns[k as int][c as int]));
                }
                return None;
            }
            assert(flat@ =~= before + stored_line(line@).take(c as int + 1));
            c += 1;
        }
        proof {
            assert(stored_line(line@).take(ncols as int) == stored_line(line@));
            assert(flat@.subrange(k as int * ncols, k as int * ncols + ncols) =~= stored_line(
                lines@[k as int]@,
            ));
            assert forall|q: int|
                0 <= q < k implies #[trigger] flat@.subrange(q * ncols, q * ncols + ncols)
                    =~= before.subrange(q * ncols, q * ncols + ncols) by {
                assert(q * ncols + ncols <= k * ncols) by (nonlinear_arith)
                    requires
                        0 <= q < k,
                        ncols >= 0,
                ;
            }
            assert((k + 1) * ncols == k * ncols + ncols) by (nonlinear_arith);
        }
        k += 1;
    }
    proof {
        assert(nrows * ncols <= 0x7fffffffffffffff) by (nonlinear_arith)
            requires
                nrows <= 0x10000000,
                ncols <= 0x10000000,
        ;
    }
    let map = ByteGrid::new(nrows, ncols, flat);
    let p = Puzzle { map, position, direction: Direction::Up };
    assert(cells(p.map)[0].len() == ncols);
    Some(p)
}

} // verus!
