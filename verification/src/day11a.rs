use vstd::prelude::*;
use crate::decimal::{
    digits_of, lemma_digits_bounds, lemma_digits_unique, lemma_pow10_19, lemma_pow10_increases,
    lemma_pow10_pos, pow10, power_of_ten,
};

verus! {

/// How many blinks a puzzle runs for.
pub const BLINKS: usize = 25;

/// Count the decimal digits of a number; zero has none.
pub fn digit_count(num: &usize) -> (r: usize)
    requires
        usize::MAX >= u64::MAX,
        *num < 10000000000000000000,
    ensures
        r == digits_of(*num as nat),
{
    let mut digits: usize = 0;
    let mut val: usize = 1;
    proof {
        lemma_pow10_19();
    }
    while val <= *num
        invariant
            usize::MAX >= u64::MAX,
            *num < 10000000000000000000,
            val >= 1,
            val == pow10(digits as nat),
            digits >= 1 ==> pow10((digits - 1) as nat) <= *num,
            digits <= 19,
        decreases 19 - digits,
    {
        proof {
            lemma_pow10_19();
            if digits as nat + 1 > 19 {
                assert(pow10(digits as nat) >= pow10(19)) by {
                    if digits > 19 {
                        lemma_pow10_increases(19, digits as nat);
                    }
                }
                assert(false);
            }
            if digits as nat + 1 < 19 {
                lemma_pow10_increases(digits as nat + 1, 19);
            }
        }
        val *= 10;
        digits += 1;
        proof {
            lemma_pow10_pos((digits - 1) as nat);
        }
    }
    proof {
        if *num == 0 {
            assert(digits == 0) by {
                lemma_pow10_pos(digits as nat);
                if digits >= 1 {
                    lemma_pow10_pos((digits - 1) as nat);
                }
            }
        } else if digits == 0 {
            assert(val == 1 && *num < 1);
            assert(false);
        } else {
            lemma_digits_unique(*num as nat, digits as nat);
        }
    }
    digits
}

/// Split a number into its upper and lower halves by digits: the upper
/// digits and the lower `ndigits / 2` digits.
pub fn split_digits(num: &usize, ndigits: usize) -> (r: (usize, usize))
    requires
        pow10((ndigits / 2) as nat) <= usize::MAX,
    ensures
        r.0 == *num as nat / pow10((ndigits / 2) as nat),
        r.1 == *num as nat % pow10((ndigits / 2) as nat),
{
    let val = power_of_ten(ndigits / 2);
    proof {
        lemma_pow10_pos((ndigits / 2) as nat);
    }
    let left = *num / val;
    proof {
        assert(left * val <= *num) by (nonlinear_arith)
            requires
                val > 0,
                left == *num as int / val as int,
                num >= 0,
        ;
        vstd::arithmetic::div_mod::lemma_fundamental_div_mod(*num as int, val as int);
    }
    let right = *num - left * val;
    (left, right)
}

/// What one stone becomes in a blink: zero becomes one, an even-digit
/// stone splits into its digit halves, any other stone is multiplied by
/// 2024.
pub open spec fn blink_stone(s: usize) -> Seq<usize> {
    if s == 0 {
        seq![1usize]
    } else if digits_of(s as nat) % 2 == 0 {
        let half = pow10((digits_of(s as nat) / 2) as nat);
        seq![(s as nat / half) as usize, (s as nat % half) as usize]
    } else {
        seq![(s * 2024) as usize]
    }
}

/// What a row of stones becomes in a blink, each stone in place.
pub open spec fn blink_all(stones: Seq<usize>) -> Seq<usize>
    decreases stones.len(),
{
    if stones.len() == 0 {
        Seq::<usize>::empty()
    } else {
        blink_all(stones.drop_last()) + blink_stone(stones.last())
    }
}

/// The row after `k` blinks.
pub open spec fn blink_times(stones: Seq<usize>, k: nat) -> Seq<usize>
    decreases k,
{
    if k == 0 {
        stones
    } else {
        blink_times(blink_all(stones), (k - 1) as nat)
    }
}

/// A stone the machine can blink: it stays within the word's decimal
/// range, and an odd-digit stone times 2024 still fits.
pub open spec fn stone_ok(s: usize) -> bool {
    &&& s < 10000000000000000000
    &&& digits_of(s as nat) % 2 == 1 ==> s * 2024 <= usize::MAX
}

/// Every stone in the row can be blinked.
pub open spec fn stones_ok(stones: Seq<usize>) -> bool {
    forall|i: int| 0 <= i < stones.len() ==> stone_ok(#[trigger] stones[i])
}

/// The row can be blinked `k` times without leaving the machine word.
pub open spec fn blinks_ok(stones: Seq<usize>, k: nat) -> bool
    decreases k,
{
    k > 0 ==> stones_ok(stones) && blinks_ok(blink_all(stones), (k - 1) as nat)
}

/// The stones, and how many blinks have been taken so far.
#[derive(Debug)]
pub struct Puzzle {
    pub stones: Vec<usize>,
    pub blinks: usize,
}

impl Puzzle {
    /// How many stones lie in the row.
    pub fn stone_count(&self) -> (r: usize)
        ensures
            r == self.stones@.len(),
    {
        self.stones.len()
    }

    /// Blink once: replace every stone by what it becomes, in place.
    pub fn blink(&mut self)
        requires
            usize::MAX >= u64::MAX,
            stones_ok(old(self).stones@),
        ensures
            final(self).stones@ == blink_all(old(self).stones@),
            final(self).blinks == old(self).blinks,
    {
        let n = self.stones.len();
        let mut next: Vec<usize> = Vec::new();
        let mut i: usize = 0;
        while i < n
            invariant
                usize::MAX >= u64::MAX,
                n == self.stones@.len(),
                stones_ok(self.stones@),
                i <= n,
                next@ == blink_all(self.stones@.take(i as int)),
            decreases n - i,
        {
            assert(self.stones@.take(i as int + 1).drop_last() == self.stones@.take(i as int));
            let s = self.stones[i];
            assert(stone_ok(s));
            if s == 0 {
                next.push(1);
            } else {
                let dc = digit_count(&s);
                if dc % 2 == 0 {
                    proof {
                        lemma_digits_bounds(s as nat);
                        lemma_pow10_19();
                        assert(dc <= 19) by {
                            if dc >= 20 {
                                if dc - 1 > 19 {
                                    lemma_pow10_increases(19, (dc - 1) as nat);
                                }
                                assert(pow10((dc - 1) as nat) >= pow10(19));
                                assert(false);
                            }
                        }
                        if dc / 2 < 19 {
                            lemma_pow10_increases((dc / 2) as nat, 19);
                        }
                        assert(pow10((dc / 2) as nat) <= usize::MAX);
                    }
                    let halves = split_digits(&s, dc);
                    next.push(halves.0);
                    next.push(halves.1);
                } else {
                    next.push(s * 2024);
                }
            }
            assert(next@ =~= blink_all(self.stones@.take(i as int + 1)));
            i += 1;
        }
        assert(self.stones@.take(n as int) == self.stones@);
        self.stones = next;
    }

    /// Blink until the count of blinks reaches the puzzle's limit, then
    /// report how many stones lie in the row.
    pub fn process(&mut self) -> (r: usize)
        requires
            usize::MAX >= u64::MAX,
            old(self).blinks <= BLINKS,
            blinks_ok(old(self).stones@, (BLINKS - old(self).blinks) as nat),
        ensures
            r == blink_times(old(self).stones@, (BLINKS - old(self).blinks) as nat).len(),
            final(self).blinks == BLINKS,
    {
        let ghost s0 = self.stones@;
        let ghost b0 = self.blinks;
        while self.blinks < BLINKS
            invariant
                usize::MAX >= u64::MAX,
                b0 <= self.blinks <= BLINKS,
                blinks_ok(self.stones@, (BLINKS - self.blinks) as nat),
                blink_times(s0, (BLINKS - b0) as nat) == blink_times(
                    self.stones@,
                    (BLINKS - self.blinks) as nat,
                ),
            decreases BLINKS - self.blinks,
        {
            self.blink();
            self.blinks += 1;
        }
        self.stone_count()
    }
}

} // verus!
