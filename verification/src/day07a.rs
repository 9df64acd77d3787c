use vstd::prelude::*;

verus! {

/// How many ways the values from `position + 1` on extend `partial` to
/// exactly `result`, choosing addition or multiplication at each step.
pub open spec fn count_sols(result: usize, values: Seq<usize>, position: int, partial: nat) -> nat
    decreases values.len() - position,
{
    if position < 0 || position >= values.len() - 1 {
        0
    } else {
        let v = values[position + 1] as nat;
        let bottom = position == values.len() - 2;
        let next = |p: nat|
            if bottom {
                if p == result {
                    1nat
                } else {
                    0nat
                }
            } else {
                count_sols(result, values, position + 1, p)
            };
        next(partial + v) + next(partial * v)
    }
}

/// With positive values every extension grows, so a partial value past
/// the target leaves no way to reach it.
proof fn lemma_count_over(result: usize, values: Seq<usize>, position: int, partial: nat)
    requires
        0 <= position < values.len() - 1,
        partial > result,
        forall|i: int| position < i < values.len() ==> (#[trigger] values[i]) >= 1,
    ensures
        count_sols(result, values, position, partial) == 0,
    decreases values.len() - position,
{
    let v = values[position + 1] as nat;
    assert(partial * v >= partial) by (nonlinear_arith)
        requires
            v >= 1,
            partial >= 0,
    ;
    if position < values.len() - 2 {
        lemma_count_over(result, values, position + 1, partial + v);
        lemma_count_over(result, values, position + 1, partial * v);
    }
}

/// One calibration equation: a target and the values to combine.
#[derive(Debug)]
pub struct Equation {
    pub result: usize,
    pub values: Vec<usize>,
}

impl Equation {
    /// The machine can search this equation: at least two values, all
    /// positive, and no candidate along the way leaves the word.
    pub open spec fn searchable(self) -> bool {
        &&& self.values@.len() >= 2
        &&& forall|i: int| 0 <= i < self.values@.len() ==> (#[trigger] self.values@[i]) >= 1
        &&& forall|i: int|
            0 < i < self.values@.len() ==> self.result * (#[trigger] self.values@[i])
                + self.values@[i] <= usize::MAX
    }

    /// Count the operator choices for the values after `position` that
    /// extend `partial_value` to exactly the target.
    fn count_solutions(&self, position: usize, partial_value: usize) -> (r: usize)
        requires
            self.searchable(),
            position < self.values@.len() - 1,
            partial_value <= self.result,
            count_sols(self.result, self.values@, position as int, partial_value as nat)
                <= usize::MAX,
        ensures
            r == count_sols(self.result, self.values@, position as int, partial_value as nat),
        decreases self.values@.len() - position,
    {
        let at_bottom = position == self.values.len() - 2;
        let v = self.values[position + 1];
        proof {
            assert(partial_value * v <= self.result * v) by (nonlinear_arith)
                requires
                    partial_value <= self.result,
                    v >= 0,
            ;
            assert(self.result + v <= self.result * v + v) by (nonlinear_arith)
                requires
                    v >= 1,
                    self.result >= 0,
            ;
        }
        let added = partial_value + v;
        let multiplied = partial_value * v;
        let ghost n_add: nat = if at_bottom {
            if added == self.result {
                1nat
            } else {
                0nat
            }
        } else {
            count_sols(self.result, self.values@, position as int + 1, added as nat)
        };
        let ghost n_mul: nat = if at_bottom {
            if multiplied == self.result {
                1nat
            } else {
                0nat
            }
        } else {
            count_sols(self.result, self.values@, position as int + 1, multiplied as nat)
        };
        assert(count_sols(self.result, self.values@, position as int, partial_value as nat)
            == n_add + n_mul);
        let cnt_add: usize = if added <= self.result {
            if at_bottom {
                if added == self.result {
                    1
                } else {
                    0
                }
            } else {
                self.count_solutions(position + 1, added)
            }
        } else {
            proof {
                if !at_bottom {
                    lemma_count_over(self.result, self.values@, position as int + 1, added as nat);
                }
            }
            0
        };
        assert(cnt_add == n_add);
        let cnt_mul: usize = if multiplied <= self.result {
            if at_bottom {
                if multiplied == self.result {
                    1
                } else {
                    0
                }
            } else {
                self.count_solutions(position + 1, multiplied)
            }
        } else {
            proof {
                if !at_bottom {
                    lemma_count_over(
                        self.result,
                        self.values@,
                        position as int + 1,
                        multiplied as nat,
                    );
                }
            }
            0
        };
        assert(cnt_mul == n_mul);
        cnt_add + cnt_mul
    }

    /// Whether some choice of additions and multiplications makes the
    /// values reach the target.
    pub fn solvable(&self) -> (r: bool)
        requires
            self.searchable(),
            count_sols(self.result, self.values@, 0, self.values@[0] as nat) <= usize::MAX,
        ensures
            r == (count_sols(self.result, self.values@, 0, self.values@[0] as nat) > 0),
    {
        let first = self.values[0];
        if first > self.result {
            proof {
                lemma_count_over(self.result, self.values@, 0, first as nat);
            }
            false
        } else {
            self.count_solutions(0, first) > 0
        }
    }
}

} // verus!
