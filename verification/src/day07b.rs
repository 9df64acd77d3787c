use vstd::prelude::*;
use crate::decimal::{
    digits_of, lemma_digits_bounds, lemma_pow10_19, lemma_pow10_increases, lemma_pow10_pos, pow10,
};

verus! {

/// The number made by writing `b`'s digits after `a`'s.
pub open spec fn concat_spec(a: nat, b: nat) -> nat {
    a * pow10(digits_of(b)) + b
}

/// Write the digits of `b` after those of `a`.
pub fn concatenate(a: usize, b: usize) -> (r: usize)
    requires
        usize::MAX >= u64::MAX,
        b < 10000000000000000000,
        concat_spec(a as nat, b as nat) <= usize::MAX,
    ensures
        r == concat_spec(a as nat, b as nat),
{
    let mut value: usize = 1;
    let ghost mut digits: nat = 0;
    proof {
        lemma_pow10_19();
    }
    while value <= b
        invariant
            usize::MAX >= u64::MAX,
            b < 10000000000000000000,
            value >= 1,
            value == pow10(digits),
            digits >= 1 ==> pow10((digits - 1) as nat) <= b,
            digits <= 19,
        decreases 19 - digits,
    {
        proof {
            lemma_pow10_19();
            if digits + 1 > 19 {
                assert(pow10(digits) >= pow10(19)) by {
                    if digits > 19 {
                        lemma_pow10_increases(19, digits);
                    }
                }
                assert(false);
            }
            if digits + 1 < 19 {
                lemma_pow10_increases(digits + 1, 19);
            }
        }
        value *= 10;
        proof {
            digits = digits + 1;
            lemma_pow10_pos((digits - 1) as nat);
        }
    }
    proof {
        if b == 0 {
            assert(digits == 0) by {
                if digits >= 1 {
                    lemma_pow10_pos((digits - 1) as nat);
                }
            }
            assert(digits_of(0) == 0);
        } else if digits == 0 {
            assert(false);
        } else {
            crate::decimal::lemma_digits_unique(b as nat, digits);
        }
        assert(value == pow10(digits_of(b as nat)));
    }
    a * value + b
}

/// How many ways the values from `position + 1` on extend `partial` to
/// exactly `result`, choosing addition, multiplication or digit
/// concatenation at each step.
pub open spec fn count_sols(result: usize, values: Seq<usize>, position: int, partial: nat) -> nat
    decreases values.len() - position,
{
    if position < 0 || position >= values.len() - 1 {
        0
    } else {
        let v = values[position + 1] as nat;
        let bottom = position == values.len() - 2;
        let next = |p: nat|
            if bottom {
                if p == result {
                    1nat
                } else {
                    0nat
                }
            } else {
                count_sols(result, values, position + 1, p)
            };
        next(partial + v) + next(partial * v) + next(concat_spec(partial, v))
    }
}

/// With positive values every extension grows, so a partial value past
/// the target leaves no way to reach it.
proof fn lemma_count_over(result: usize, values: Seq<usize>, position: int, partial: nat)
    requires
        0 <= position < values.len() - 1,
        partial > result,
        forall|i: int| position < i < values.len() ==> (#[trigger] values[i]) >= 1,
    ensures
        count_sols(result, values, position, partial) == 0,
    decreases values.len() - position,
{
    let v = values[position + 1] as nat;
    assert(v >= 1);
    assert(partial + v > result);
    assert(partial * v >= partial) by (nonlinear_arith)
        requires
            v >= 1,
            partial >= 0,
    ;
    lemma_pow10_pos(digits_of(v));
    assert(concat_spec(partial, v) >= partial) by (nonlinear_arith)
        requires
            pow10(digits_of(v)) >= 1,
            partial >= 0,
            v >= 0,
    ;
    if position < values.len() - 2 {
        lemma_count_over(result, values, position + 1, partial + v);
        lemma_count_over(result, values, position + 1, partial * v);
        lemma_count_over(result, values, position + 1, concat_spec(partial, v));
    }
}

/// One calibration equation: a target and the values to combine.
#[derive(Debug)]
pub struct Equation {
    pub result: usize,
    pub values: Vec<usize>,
}

impl Equation {
    /// The machine can search this equation: at least two values, all
    /// positive, and no candidate along the way leaves the word.
    pub open spec fn searchable(self) -> bool {
        &&& usize::MAX >= u64::MAX
        &&& self.values@.len() >= 2
        &&& forall|i: int| 0 <= i < self.values@.len() ==> (#[trigger] self.values@[i]) >= 1
        &&& forall|i: int|
            0 <= i < self.values@.len() ==> (#[trigger] self.values@[i]) < 10000000000000000000
        &&& forall|i: int|
            0 < i < self.values@.len() ==> (self.result * pow10(
                digits_of((#[trigger] self.values@[i]) as nat),
            ) + self.values@[i]) <= usize::MAX
    }

    /// Count the operator choices for the values after `position` that
    /// extend `partial_value` to exactly the target.
    pub fn count_solutions(&self, position: usize, partial_value: usize) -> (r: usize)
        requires
            self.searchable(),
            position < self.values@.len() - 1,
            partial_value <= self.result,
            count_sols(self.result, self.values@, position as int, partial_value as nat)
                <= usize::MAX,
        ensures
            r == count_sols(self.result, self.values@, position as int, partial_value as nat),
        decreases self.values@.len() - position,
    {
        let at_bottom = position == self.values.len() - 2;
        let v = self.values[position + 1];
        proof {
            lemma_digits_bounds(v as nat);
            lemma_pow10_pos(digits_of(v as nat));
            assert(self.result * (v as int) <= self.result * pow10(digits_of(v as nat)))
                by (nonlinear_arith)
                requires
                    v < pow10(digits_of(v as nat)),
                    self.result >= 0,
                    v >= 0,
            ;
            assert(partial_value * v <= self.result * v) by (nonlinear_arith)
                requires
                    partial_value <= self.result,
                    v >= 0,
            ;
            assert(partial_value * pow10(digits_of(v as nat)) <= self.result * pow10(
                digits_of(v as nat),
            )) by (nonlinear_arith)
                requires
                    partial_value <= self.result,
                    pow10(digits_of(v as nat)) >= 0,
            ;
            assert(self.result + v <= self.result * pow10(digits_of(v as nat)) + v)
                by (nonlinear_arith)
                requires
                    pow10(digits_of(v as nat)) >= 1,
                    self.result >= 0,
            ;
        }
        let added = partial_value + v;
        let multiplied = partial_value * v;
        let glued = concatenate(partial_value, v);
        let ghost total = count_sols(
            self.result,
            self.values@,
            position as int,
            partial_value as nat,
        );
        let ghost n_add: nat = if at_bottom {
            if added == self.result {
                1nat
            } else {
                0nat
            }
        } else {
            count_sols(self.result, self.values@, position as int + 1, added as nat)
        };
        let ghost n_mul: nat = if at_bottom {
            if multiplied == self.result {
                1nat
            } else {
                0nat
            }
        } else {
            count_sols(self.result, self.values@, position as int + 1, multiplied as nat)
        };
        let ghost n_cat: nat = if at_bottom {
            if glued == self.result {
                1nat
            } else {
                0nat
            }
        } else {
            count_sols(self.result, self.values@, position as int + 1, glued as nat)
        };
        assert(total == n_add + n_mul + n_cat);
        let cnt_add: usize = if added <= self.result {
            if at_bottom {
                if added == self.result {
                    1
                } else {
                    0
                }
            } else {
                self.count_solutions(position + 1, added)
            }
        } else {
            proof {
                if !at_bottom {
                    lemma_count_over(self.result, self.values@, position as int + 1, added as nat);
                }
            }
            0
        };
        assert(cnt_add == n_add);
        let cnt_mul: usize = if multiplied <= self.result {
            if at_bottom {
                if multiplied == self.result {
                    1
                } else {
                    0
                }
            } else {
                self.count_solutions(position + 1, multiplied)
            }
        } else {
            proof {
                if !at_bottom {
                    lemma_count_over(
                        self.result,
                        self.values@,
                        position as int + 1,
                        multiplied as nat,
                    );
                }
            }
            0
        };
        assert(cnt_mul == n_mul);
        let cnt_cat: usize = if glued <= self.result {
            if at_bottom {
                if glued == self.result {
                    1
                } else {
                    0
                }
            } else {
                self.count_solutions(position + 1, glued)
            }
        } else {
            proof {
                if !at_bottom {
                    lemma_count_over(self.result, self.values@, position as int + 1, glued as nat);
                }
            }
            0
        };
        assert(cnt_cat == n_cat);
        cnt_add + cnt_mul + cnt_cat
    }

    /// Whether some choice of operators makes the values reach the
    /// target.
    pub fn solvable(&self) -> (r: bool)
        requires
            self.searchable(),
            count_sols(self.result, self.values@, 0, self.values@[0] as nat) <= usize::MAX,
        ensures
            r == (count_sols(self.result, self.values@, 0, self.values@[0] as nat) > 0),
    {
        let first = self.values[0];
        if first > self.result {
            proof {
                lemma_count_over(self.result, self.values@, 0, first as nat);
            }
            false
        } else {
            self.count_solutions(0, first) > 0
        }
    }
}

} // verus!
