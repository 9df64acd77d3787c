use vstd::prelude::*;

verus! {

/// One buyer's pseudorandom secret number, evolved round by round.
pub struct Secret {
    pub value: usize,
}

/// The value after mixing `num` into `v`: bitwise exclusive or.
pub open spec fn mixed(v: usize, num: usize) -> usize {
    v ^ num
}

/// The value after pruning `v`: reduce modulo 16777216.
pub open spec fn pruned(v: usize) -> usize {
    (v % 16777216) as usize
}

/// The value after one full evolution round: mix in the value times 64 and
/// prune, mix in the value divided by 32 and prune, mix in the value times
/// 2048 and prune.
pub open spec fn evolved(v: usize) -> usize
    recommends
        v * 64 <= usize::MAX,
{
    let a = pruned(mixed(v, (v * 64) as usize));
    let b = pruned(mixed(a, (a / 32) as usize));
    pruned(mixed(b, (b * 2048) as usize))
}

/// The value after `steps` evolution rounds.
pub open spec fn evolved_times(v: usize, steps: nat) -> usize
    decreases steps,
{
    if steps == 0 {
        v
    } else {
        evolved(evolved_times(v, (steps - 1) as nat))
    }
}

impl Secret {
    pub fn mix(&mut self, num: usize)
        ensures
            final(self).value == mixed(old(self).value, num),
    {
        self.value ^= num;
    }

    pub fn prune(&mut self)
        ensures
            final(self).value == pruned(old(self).value),
            final(self).value < 16777216,
    {
        self.value %= 16777216;
    }

    pub fn evolve(&mut self)
        requires
            usize::MAX >= u64::MAX,
            old(self).value * 64 <= usize::MAX,
        ensures
            final(self).value == evolved(old(self).value),
            final(self).value < 16777216,
    {
        let m = self.value * 64;
        self.mix(m);
        self.prune();
        let d = self.value / 32;
        self.mix(d);
        self.prune();
        let m = self.value * 2048;
        self.mix(m);
        self.prune();
    }
}

} // verus!
