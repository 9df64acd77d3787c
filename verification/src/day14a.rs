use vstd::prelude::*;
use vstd::arithmetic::div_mod::{
    lemma_add_mod_noop, lemma_mod_bound, lemma_mod_self_0, lemma_small_mod,
};

verus! {

/// One robot: a position and a velocity on the grid.
#[derive(Debug)]
pub struct Robot {
    pub position: [i64; 2],
    pub velocity: [i64; 2],
}

/// The velocity shifted into the nonnegative range: unchanged when
/// already nonnegative, else reduced modulo the room size.
pub open spec fn lifted_velocity(v: int, r: int) -> int
    recommends
        r > 0,
{
    if v >= 0 {
        v
    } else {
        v % r
    }
}

/// Where a coordinate ends after `time` steps in a room that wraps at
/// `r`.
pub open spec fn coordinate_after(p: int, v: int, time: int, r: int) -> int
    recommends
        r > 0,
{
    (p + lifted_velocity(v, r) * time) % r
}

impl Robot {
    /// One coordinate of the robot's position after `time` steps.
    pub fn position_after_1d(&self, axis: usize, time: i64, room_size: [i64; 2]) -> (res: i64)
        requires
            axis < 2,
            self.position@[axis as int] >= 0,
            time >= 0,
            room_size@[axis as int] > 0,
            self.position@[axis as int] + lifted_velocity(
                self.velocity@[axis as int] as int,
                room_size@[axis as int] as int,
            ) * time <= u64::MAX,
        ensures
            res == coordinate_after(
                self.position@[axis as int] as int,
                self.velocity@[axis as int] as int,
                time as int,
                room_size@[axis as int] as int,
            ),
            0 <= res < room_size@[axis as int],
    {
        let p = self.position[axis] as u64;
        let mut v = self.velocity[axis];
        let r = room_size[axis] as u64;
        let ghost v0 = self.velocity@[axis as int] as int;
        let ghost ri = room_size@[axis as int] as int;
        proof {
            if v0 < 0 {
                lemma_mod_bound(v0, ri);
            }
        }
        while v < 0
            invariant
                ri > 0,
                room_size@[axis as int] == ri,
                v as int % ri == v0 % ri,
                v0 < 0 ==> v <= vstd::math::max(0, ri - 1),
                v0 >= 0 ==> v == v0,
            decreases ri - v,
        {
            proof {
                lemma_add_mod_noop(v as int, room_size@[axis as int] as int, ri);
                lemma_mod_self_0(ri);
                assert((v as int + ri) % ri == (v as int % ri + 0) % ri);
                vstd::arithmetic::div_mod::lemma_mod_twice(v as int, ri);
            }
            v += room_size[axis];
        }
        proof {
            if v0 < 0 {
                assert(0 <= v <= ri - 1);
                lemma_small_mod(v as nat, ri as nat);
                assert(v as int == v0 % ri);
            }
            assert(v as int == lifted_velocity(v0, ri));
        }
        let v = v as u64;
        let t = time as u64;
        let res = (p + v * t) % r;
        proof {
            lemma_mod_bound((p + v * t) as int, ri);
        }
        res as i64
    }

    /// The robot's position after `time` steps in the room.
    pub fn position_after(&self, time: i64, room_size: [i64; 2]) -> (res: [i64; 2])
        requires
            self.position@[0] >= 0,
            self.position@[1] >= 0,
            time >= 0,
            room_size@[0] > 0,
            room_size@[1] > 0,
            self.position@[0] + lifted_velocity(self.velocity@[0] as int, room_size@[0] as int)
                * time <= u64::MAX,
            self.position@[1] + lifted_velocity(self.velocity@[1] as int, room_size@[1] as int)
                * time <= u64::MAX,
        ensures
            res@[0] == coordinate_after(
                self.position@[0] as int,
                self.velocity@[0] as int,
                time as int,
                room_size@[0] as int,
            ),
            res@[1] == coordinate_after(
                self.position@[1] as int,
                self.velocity@[1] as int,
                time as int,
                room_size@[1] as int,
            ),
            0 <= res@[0] < room_size@[0],
            0 <= res@[1] < room_size@[1],
    {
        [
            self.position_after_1d(0, time, room_size),
            self.position_after_1d(1, time, room_size),
        ]
    }
}

/// Which quadrant a position falls in, the middle row and column
/// belonging to none: 0 and 1 are the left half, top and bottom, 2 and 3
/// the right half.
pub open spec fn quadrant_of(position: Seq<i64>, room_size: Seq<i64>) -> Option<usize> {
    let hx = (room_size[0] - 1) / 2;
    let hy = (room_size[1] - 1) / 2;
    if position[0] < hx {
        if position[1] < hy {
            Some(0usize)
        } else if position[1] == hy {
            None
        } else {
            Some(1usize)
        }
    } else if position[0] == hx {
        None
    } else {
        if position[1] < hy {
            Some(2usize)
        } else if position[1] == hy {
            None
        } else {
            Some(3usize)
        }
    }
}

/// Sort a position into its quadrant; the middle row and column belong
/// to none.
pub fn quadrant(position: [i64; 2], room_size: [i64; 2]) -> (r: Option<usize>)
    requires
        0 <= position@[0] < room_size@[0],
        0 <= position@[1] < room_size@[1],
    ensures
        r == quadrant_of(position@, room_size@),
{
    let hx = (room_size[0] - 1) / 2;
    let hy = (room_size[1] - 1) / 2;
    if position[0] < hx {
        if position[1] < hy {
            Some(0)
        } else if position[1] == hy {
            None
        } else {
            Some(1)
        }
    } else if position[0] == hx {
        None
    } else {
        if position[1] < hy {
            Some(2)
        } else if position[1] == hy {
            None
        } else {
            Some(3)
        }
    }
}

/// All the robots of the puzzle.
#[derive(Debug)]
pub struct Puzzle {
    pub robots: Vec<Robot>,
}

/// A robot the machine can move: nonnegative position, and the wrapped
/// travel fits the machine word.
pub open spec fn robot_ok(r: Robot, time: int, room_size: Seq<i64>) -> bool {
    &&& r.position@[0] >= 0
    &&& r.position@[1] >= 0
    &&& r.position@[0] + lifted_velocity(r.velocity@[0] as int, room_size[0] as int) * time
        <= u64::MAX
    &&& r.position@[1] + lifted_velocity(r.velocity@[1] as int, room_size[1] as int) * time
        <= u64::MAX
}

/// Where a robot stands after `time` steps.
pub open spec fn robot_at(r: Robot, time: int, room_size: Seq<i64>) -> Seq<i64> {
    seq![
        coordinate_after(
            r.position@[0] as int,
            r.velocity@[0] as int,
            time,
            room_size[0] as int,
        ) as i64,
        coordinate_after(
            r.position@[1] as int,
            r.velocity@[1] as int,
            time,
            room_size[1] as int,
        ) as i64,
    ]
}

/// How many of the first `i` robots land in quadrant `q`.
pub open spec fn quadrant_count(
    robots: Seq<Robot>,
    time: int,
    room_size: Seq<i64>,
    q: usize,
    i: int,
) -> int
    decreases i,
{
    if i <= 0 {
        0
    } else {
        quadrant_count(robots, time, room_size, q, i - 1) + if quadrant_of(
            robot_at(robots[i - 1], time, room_size),
            room_size,
        ) == Some(q) {
            1int
        } else {
            0int
        }
    }
}

/// Quadrant counts stay within the robot count.
proof fn lemma_quadrant_count_le(
    robots: Seq<Robot>,
    time: int,
    room_size: Seq<i64>,
    q: usize,
    i: int,
)
    requires
        0 <= i,
    ensures
        0 <= quadrant_count(robots, time, room_size, q, i) <= i,
    decreases i,
{
    if i > 0 {
        lemma_quadrant_count_le(robots, time, room_size, q, i - 1);
    }
}

impl Puzzle {
    /// Move every robot `time` steps, sort the landings into quadrants,
    /// and multiply the four counts.
    pub fn process(&mut self, time: i64, room_size: [i64; 2]) -> (r: usize)
        requires
            usize::MAX >= u64::MAX,
            time >= 0,
            room_size@[0] > 0,
            room_size@[1] > 0,
            old(self).robots@.len() <= 55000,
            forall|k: int|
                0 <= k < old(self).robots@.len() ==> robot_ok(
                    #[trigger] old(self).robots@[k],
                    time as int,
                    room_size@,
                ),
        ensures
            final(self).robots == old(self).robots,
            r == quadrant_count(old(self).robots@, time as int, room_size@, 0, old(
                self,
            ).robots@.len() as int) * quadrant_count(
                old(self).robots@,
                time as int,
                room_size@,
                1,
                old(self).robots@.len() as int,
            ) * quadrant_count(
                old(self).robots@,
                time as int,
                room_size@,
                2,
                old(self).robots@.len() as int,
            ) * quadrant_count(
                old(self).robots@,
                time as int,
                room_size@,
                3,
                old(self).robots@.len() as int,
            ),
    {
        let ghost rs = self.robots@;
        let n = self.robots.len();
        let mut c0: usize = 0;
        let mut c1: usize = 0;
        let mut c2: usize = 0;
        let mut c3: usize = 0;
        let mut k: usize = 0;
        while k < n
            invariant
                rs == self.robots@,
                self.robots == old(self).robots,
                n == rs.len() <= 55000,
                time >= 0,
                room_size@[0] > 0,
                room_size@[1] > 0,
                forall|q: int|
                    0 <= q < rs.len() ==> robot_ok(#[trigger] rs[q], time as int, room_size@),
                k <= n,
                c0 == quadrant_count(rs, time as int, room_size@, 0, k as int),
                c1 == quadrant_count(rs, time as int, room_size@, 1, k as int),
                c2 == quadrant_count(rs, time as int, room_size@, 2, k as int),
                c3 == quadrant_count(rs, time as int, room_size@, 3, k as int),
            decreases n - k,
        {
            proof {
                lemma_quadrant_count_le(rs, time as int, room_size@, 0, k as int);
                lemma_quadrant_count_le(rs, time as int, room_size@, 1, k as int);
                lemma_quadrant_count_le(rs, time as int, room_size@, 2, k as int);
                lemma_quadrant_count_le(rs, time as int, room_size@, 3, k as int);
            }
            let robot = &self.robots[k];
            let pos = robot.position_after(time, room_size);
            assert(pos@ =~= robot_at(rs[k as int], time as int, room_size@));
            match quadrant(pos, room_size) {
                Some(q) => {
                    if q == 0 {
                        c0 += 1;
                    } else if q == 1 {
                        c1 += 1;
                    } else if q == 2 {
                        c2 += 1;
                    } else {
                        c3 += 1;
                    }
                },
                None => {},
            }
            k += 1;
        }
        proof {
            lemma_quadrant_count_le(rs, time as int, room_size@, 0, n as int);
            lemma_quadrant_count_le(rs, time as int, room_size@, 1, n as int);
            lemma_quadrant_count_le(rs, time as int, room_size@, 2, n as int);
            lemma_quadrant_count_le(rs, time as int, room_size@, 3, n as int);
            assert(c0 * c1 <= 55000 * 55000 && c0 * c1 >= 0) by (nonlinear_arith)
                requires
                    0 <= c0 <= 55000,
                    0 <= c1 <= 55000,
            ;
            assert(c0 * c1 * c2 <= 55000 * 55000 * 55000 && c0 * c1 * c2 >= 0)
                by (nonlinear_arith)
                requires
                    0 <= c0 * c1 <= 55000 * 55000,
                    0 <= c2 <= 55000,
            ;
            assert(c0 * c1 * c2 * c3 <= 55000 * 55000 * 55000 * 55000 && c0 * c1 * c2 * c3 >= 0)
                by (nonlinear_arith)
                requires
                    0 <= c0 * c1 * c2 <= 55000 * 55000 * 55000,
                    0 <= c3 <= 55000,
            ;
            assert(55000 * 55000 * 55000 * 55000 <= u64::MAX);
            assert(usize::MAX >= u64::MAX);
        }
        let p01 = c0 * c1;
        let p012 = p01 * c2;
        p012 * c3
    }
}

} // verus!
