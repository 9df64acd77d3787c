use vstd::prelude::*;
use vstd::math::abs;

verus! {

/// One claw machine: two buttons, each moving the claw by a fixed
/// amount on both axes, and the prize position.
#[derive(Debug)]
pub struct Game {
    pub buttons: [[usize; 2]; 2],
    pub prize: [usize; 2],
}

/// `d` divides `n` with no remainder.
pub open spec fn divides_exactly(n: int, d: int) -> bool
    recommends
        d != 0,
{
    abs(n) as int % abs(d) as int == 0
}

/// The signed quotient of an exact division.
pub open spec fn exact_quotient(n: int, d: int) -> int
    recommends
        d != 0,
{
    if (n >= 0) == (d >= 0) {
        abs(n) as int / abs(d) as int
    } else {
        -(abs(n) as int / abs(d) as int)
    }
}

impl Game {
    /// The press counts that reach the prize, solved by elimination:
    /// nothing when the buttons are collinear, when the unique rational
    /// solution is not a pair of nonnegative integers, or when it
    /// overflows the machine word.
    pub open spec fn solution(self) -> Option<[usize; 2]> {
        let ax = self.buttons@[0][0] as int;
        let ay = self.buttons@[0][1] as int;
        let bx = self.buttons@[1][0] as int;
        let by = self.buttons@[1][1] as int;
        let px = self.prize@[0] as int;
        let py = self.prize@[1] as int;
        let det = by * ax - bx * ay;
        if det == 0 || ax == 0 {
            None
        } else {
            let bnum = py * ax - ay * px;
            if !divides_exactly(bnum, det) {
                None
            } else {
                let b = exact_quotient(bnum, det);
                if b < 0 || b > usize::MAX {
                    None
                } else {
                    let anum = px - bx * b;
                    if anum < 0 || !divides_exactly(anum, ax) {
                        None
                    } else {
                        let a = anum / ax;
                        if a > usize::MAX {
                            None
                        } else {
                            Some([a as usize, b as usize])
                        }
                    }
                }
            }
        }
    }

    /// Solve for the press counts that land on the prize.
    pub fn solve(&self) -> (r: Option<[usize; 2]>)
        requires
            self.buttons@[0][0] < 0x100000,
            self.buttons@[0][1] < 0x100000,
            self.buttons@[1][0] < 0x100000,
            self.buttons@[1][1] < 0x100000,
            self.prize@[0] < 0x1000000000000000,
            self.prize@[1] < 0x1000000000000000,
        ensures
            r == self.solution(),
            r matches Some(presses) ==> presses@[0] * self.buttons@[0][0] + presses@[1]
                * self.buttons@[1][0] == self.prize@[0],
    {
        let ax = self.buttons[0][0] as i128;
        let ay = self.buttons[0][1] as i128;
        let bx = self.buttons[1][0] as i128;
        let by = self.buttons[1][1] as i128;
        let px = self.prize[0] as i128;
        let py = self.prize[1] as i128;
        assert(0 <= ax < 0x100000 && 0 <= ay < 0x100000 && 0 <= bx < 0x100000 && 0 <= by
            < 0x100000);
        assert(0 <= px < 0x1000000000000000 && 0 <= py < 0x1000000000000000);
        proof {
            assert(0 <= by * ax < 0x10000000000 && 0 <= bx * ay < 0x10000000000 && 0 <= py * ax
                < 0x100000000000000000000 && 0 <= ay * px < 0x100000000000000000000)
                by (nonlinear_arith)
                requires
                    0 <= ax < 0x100000,
                    0 <= ay < 0x100000,
                    0 <= bx < 0x100000,
                    0 <= by < 0x100000,
                    0 <= px < 0x1000000000000000,
                    0 <= py < 0x1000000000000000,
            ;
        }
        let det = by * ax - bx * ay;
        if det == 0 || ax == 0 {
            return None;
        }
        let bnum = py * ax - ay * px;
        let det_mag = if det < 0 {
            (-det) as u128
        } else {
            det as u128
        };
        let bnum_mag = if bnum < 0 {
            (-bnum) as u128
        } else {
            bnum as u128
        };
        if bnum_mag % det_mag != 0 {
            return None;
        }
        let b_mag = bnum_mag / det_mag;
        let same_sign = (bnum >= 0) == (det >= 0);
        if !same_sign && b_mag != 0 {
            return None;
        }
        if b_mag > usize::MAX as u128 {
            return None;
        }
        let b = b_mag as i128;
        assert(b == exact_quotient(bnum as int, det as int));
        proof {
            assert(0 <= bx * b < 0x100000000000000000000000) by (nonlinear_arith)
                requires
                    0 <= bx < 0x100000,
                    0 <= b <= 0xffffffffffffffff,
            ;
        }
        let anum = px - bx * b;
        if anum < 0 {
            return None;
        }
        let anum_mag = anum as u128;
        let ax_mag = ax as u128;
        if anum_mag % ax_mag != 0 {
            return None;
        }
        let a_mag = anum_mag / ax_mag;
        if a_mag > usize::MAX as u128 {
            return None;
        }
        let a = a_mag as i128;
        proof {
            assert(anum_mag as int == anum as int);
            assert(ax_mag as int == ax as int);
            assert(a_mag as int == anum_mag as int / ax_mag as int);
            assert(a as int == anum as int / ax as int);
            assert(anum as int % ax as int == 0);
            assert(anum == ax * (anum as int / ax as int)) by {
                vstd::arithmetic::div_mod::lemma_fundamental_div_mod(anum as int, ax as int);
            }
            assert(a * ax == ax * (anum as int / ax as int));
            assert(a * ax + bx * b == px);
            assert((a as usize) as int == a as int);
            assert((b as usize) as int == b as int);
            assert(self.buttons@[0][0] as int == ax as int);
            assert(self.buttons@[1][0] as int == bx as int);
            assert(self.prize@[0] as int == px as int);
            assert((a as usize) * self.buttons@[0][0] + (b as usize) * self.buttons@[1][0]
                == self.prize@[0]) by (nonlinear_arith)
                requires
                    (a as usize) as int == a as int,
                    (b as usize) as int == b as int,
                    self.buttons@[0][0] as int == ax as int,
                    self.buttons@[1][0] as int == bx as int,
                    self.prize@[0] as int == px as int,
                    a * ax + bx * b == px,
            ;
        }
        Some([a as usize, b as usize])
    }
}

} // verus!
