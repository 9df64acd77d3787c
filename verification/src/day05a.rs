use vstd::prelude::*;

verus! {

/// One ordering rule: the left page must come before the right page.
#[derive(Debug)]
pub struct Rule {
    pub left: usize,
    pub right: usize,
}

/// One update: the pages in print order.
#[derive(Debug)]
pub struct Update {
    pub pages: Vec<usize>,
}

/// The rules in force, kept as the set of ordered pairs.
#[derive(Debug)]
pub struct Ruleset {
    pub pairs: Vec<(usize, usize)>,
}

/// Some rule orders `l` before `r`.
pub open spec fn has_pair(rules: Seq<Rule>, l: usize, r: usize) -> bool {
    exists|i: int| 0 <= i < rules.len() && rules[i].left == l && (#[trigger] rules[i]).right == r
}

impl Ruleset {
    /// The ruleset holds the pair `l` before `r`.
    pub open spec fn has_rule(self, l: usize, r: usize) -> bool {
        exists|i: int| 0 <= i < self.pairs@.len() && self.pairs@[i] == (l, r)
    }

    /// Collect the rules into a ruleset holding exactly their pairs.
    pub fn new(rules: &[Rule]) -> (r: Ruleset)
        ensures
            forall|l: usize, q: usize| r.has_rule(l, q) <==> has_pair(rules@, l, q),
    {
        let mut pairs: Vec<(usize, usize)> = Vec::new();
        let n = rules.len();
        let mut i: usize = 0;
        while i < n
            invariant
                n == rules@.len(),
                i <= n,
                pairs@.len() == i,
                forall|j: int|
                    0 <= j < i ==> pairs@[j] == (rules@[j].left, (#[trigger] rules@[j]).right),
            decreases n - i,
        {
            pairs.push((rules[i].left, rules[i].right));
            i += 1;
        }
        let r = Ruleset { pairs };
        proof {
            assert forall|l: usize, q: usize| r.has_rule(l, q) <==> has_pair(rules@, l, q) by {
                if r.has_rule(l, q) {
                    let j = choose|j: int| 0 <= j < r.pairs@.len() && r.pairs@[j] == (l, q);
                    assert(rules@[j].left == l && rules@[j].right == q);
                }
                if has_pair(rules@, l, q) {
                    let j = choose|j: int|
                        0 <= j < rules@.len() && rules@[j].left == l && (#[trigger] rules@[j]).right
                            == q;
                    assert(r.pairs@[j] == (l, q));
                }
            }
        }
        r
    }

    /// Look a pair up.
    fn contains(&self, l: usize, q: usize) -> (r: bool)
        ensures
            r == self.has_rule(l, q),
    {
        let n = self.pairs.len();
        let mut i: usize = 0;
        while i < n
            invariant
                n == self.pairs@.len(),
                i <= n,
                forall|j: int| 0 <= j < i ==> self.pairs@[j] != (l, q),
            decreases n - i,
        {
            let p = self.pairs[i];
            if p.0 == l && p.1 == q {
                return true;
            }
            i += 1;
        }
        false
    }
}

/// No page is printed after a page that the rules order behind it.
pub open spec fn ordered_ok(pages: Seq<usize>, rs: Ruleset) -> bool {
    forall|i: int, j: int|
        0 <= i < j < pages.len() ==> !rs.has_rule(#[trigger] pages[j], #[trigger] pages[i])
}

impl Update {
    /// Check the update against the ruleset: no earlier page may be one
    /// that some rule orders behind a later page.
    pub fn check(&self, ruleset: &Ruleset) -> (r: bool)
        ensures
            r == ordered_ok(self.pages@, *ruleset),
    {
        let n = self.pages.len();
        let mut j: usize = 0;
        while j < n
            invariant
                n == self.pages@.len(),
                j <= n,
                forall|a: int, b: int|
                    0 <= a < b < j ==> !ruleset.has_rule(
                        #[trigger] self.pages@[b],
                        #[trigger] self.pages@[a],
                    ),
            decreases n - j,
        {
            let mut i: usize = 0;
            while i < j
                invariant
                    j < n == self.pages@.len(),
                    i <= j,
                    forall|a: int, b: int|
                        0 <= a < b < j ==> !ruleset.has_rule(
                            #[trigger] self.pages@[b],
                            #[trigger] self.pages@[a],
                        ),
                    forall|a: int|
                        0 <= a < i ==> !ruleset.has_rule(
                            self.pages@[j as int],
                            #[trigger] self.pages@[a],
                        ),
                decreases j - i,
            {
                if ruleset.contains(self.pages[j], self.pages[i]) {
                    return false;
                }
                i += 1;
            }
            j += 1;
        }
        true
    }

    /// The middle page of the update.
    pub fn middle(&self) -> (r: usize)
        requires
            self.pages@.len() > 0,
        ensures
            r == self.pages@[(self.pages@.len() - 1) as int / 2],
    {
        self.pages[(self.pages.len() - 1) / 2]
    }
}

/// The whole puzzle: the rules and the updates.
#[derive(Debug)]
pub struct Puzzle {
    pub rules: Vec<Rule>,
    pub updates: Vec<Update>,
}

/// The middle page of an update.
pub open spec fn middle_of(u: Update) -> usize {
    u.pages@[(u.pages@.len() - 1) as int / 2]
}

/// No page comes after a page that the rules order behind it.
pub open spec fn ordered_ok_rules(pages: Seq<usize>, rules: Seq<Rule>) -> bool {
    forall|i: int, j: int|
        0 <= i < j < pages.len() ==> !has_pair(rules, #[trigger] pages[j], #[trigger] pages[i])
}

/// The sum of the middle pages of the correctly ordered ones among the
/// first `i` updates.
pub open spec fn middles_total(updates: Seq<Update>, rules: Seq<Rule>, i: int) -> int
    decreases i,
{
    if i <= 0 {
        0
    } else {
        middles_total(updates, rules, i - 1) + if ordered_ok_rules(updates[i - 1].pages@, rules) {
            middle_of(updates[i - 1]) as int
        } else {
            0
        }
    }
}

/// Prefix sums of middle pages never shrink.
proof fn lemma_middles_total_bound(updates: Seq<Update>, rules: Seq<Rule>, i: int, n: int)
    requires
        0 <= i <= n,
    ensures
        middles_total(updates, rules, i) <= middles_total(updates, rules, n),
    decreases n - i,
{
    if i < n {
        lemma_middles_total_bound(updates, rules, i + 1, n);
    }
}

impl Puzzle {
    /// Sum the middle pages of the updates that respect the rules.
    pub fn process(&self) -> (r: usize)
        requires
            forall|k: int|
                0 <= k < self.updates@.len() ==> (#[trigger] self.updates@[k]).pages@.len() > 0,
            middles_total(self.updates@, self.rules@, self.updates@.len() as int) <= usize::MAX,
        ensures
            r == middles_total(self.updates@, self.rules@, self.updates@.len() as int),
    {
        let ruleset = Ruleset::new(self.rules.as_slice());
        let n = self.updates.len();
        let mut out: usize = 0;
        let mut k: usize = 0;
        while k < n
            invariant
                n == self.updates@.len(),
                forall|l: usize, q: usize|
                    ruleset.has_rule(l, q) <==> has_pair(self.rules@, l, q),
                forall|j: int| 0 <= j < n ==> (#[trigger] self.updates@[j]).pages@.len() > 0,
                middles_total(self.updates@, self.rules@, n as int) <= usize::MAX,
                k <= n,
                out == middles_total(self.updates@, self.rules@, k as int),
            decreases n - k,
        {
            proof {
                lemma_middles_total_bound(self.updates@, self.rules@, k as int + 1, n as int);
            }
            let update = &self.updates[k];
            let good = update.check(&ruleset);
            proof {
                assert(ordered_ok(update.pages@, ruleset) == ordered_ok_rules(
                    update.pages@,
                    self.rules@,
                )) by {
                    if ordered_ok(update.pages@, ruleset) {
                        assert forall|a: int, b: int| 0 <= a < b < update.pages@.len() implies
                            !has_pair(self.rules@, #[trigger] update.pages@[b], #[trigger] update.pages@[a]) by {
                            assert(!ruleset.has_rule(update.pages@[b], update.pages@[a]));
                        }
                    }
                    if ordered_ok_rules(update.pages@, self.rules@) {
                        assert forall|a: int, b: int| 0 <= a < b < update.pages@.len() implies
                            !ruleset.has_rule(#[trigger] update.pages@[b], #[trigger] update.pages@[a]) by {
                            assert(!has_pair(self.rules@, update.pages@[b], update.pages@[a]));
                        }
                    }
                }
            }
            if good {
                out += update.middle();
            }
            k += 1;
        }
        out
    }
}

} // verus!
