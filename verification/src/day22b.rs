use vstd::prelude::*;
use crate::day22a::{evolved, evolved_times, mixed, pruned};

verus! {

/// One buyer's pseudorandom secret number, evolved round by round.
pub struct Secret {
    pub value: usize,
}

impl Secret {
    pub fn mix(&mut self, num: usize)
        ensures
            final(self).value == mixed(old(self).value, num),
    {
        self.value ^= num;
    }

    pub fn prune(&mut self)
        ensures
            final(self).value == pruned(old(self).value),
            final(self).value < 16777216,
    {
        self.value %= 16777216;
    }

    pub fn evolve(&mut self)
        requires
            usize::MAX >= u64::MAX,
            old(self).value * 64 <= usize::MAX,
        ensures
            final(self).value == evolved(old(self).value),
            final(self).value < 16777216,
    {
        let m = self.value * 64;
        self.mix(m);
        self.prune();
        let d = self.value / 32;
        self.mix(d);
        self.prune();
        let m = self.value * 2048;
        self.mix(m);
        self.prune();
    }
}

/// The price shown after `t` rounds: the last digit of the secret.
pub open spec fn price_at(v: usize, t: nat) -> i8 {
    (evolved_times(v, t) % 10) as i8
}

/// The price change brought by round `t`.
pub open spec fn delta_at(v: usize, t: nat) -> i8
    recommends
        t >= 1,
{
    (price_at(v, t) - price_at(v, (t - 1) as nat)) as i8
}

/// The four price changes ending with round `t`.
pub open spec fn window_at(v: usize, t: nat) -> Seq<i8>
    recommends
        t >= 4,
{
    seq![
        delta_at(v, (t - 3) as nat),
        delta_at(v, (t - 2) as nat),
        delta_at(v, (t - 1) as nat),
        delta_at(v, t),
    ]
}

/// The prices by change window over `steps` rounds: each window of four
/// changes maps to the price at its first sighting.
pub open spec fn sequence_map(v: usize, steps: nat) -> Map<Seq<i8>, i8>
    decreases steps,
{
    if steps < 4 {
        Map::<Seq<i8>, i8>::empty()
    } else {
        let prev = sequence_map(v, (steps - 1) as nat);
        let key = window_at(v, steps);
        if prev.contains_key(key) {
            prev
        } else {
            prev.insert(key, price_at(v, steps))
        }
    }
}

/// A map from change windows to prices, kept as a list of entries whose
/// later entries would override earlier ones.
pub struct SequenceMap {
    pub entries: Vec<([i8; 4], i8)>,
}

/// The map a list of entries denotes.
pub open spec fn entries_map(s: Seq<([i8; 4], i8)>) -> Map<Seq<i8>, i8>
    decreases s.len(),
{
    if s.len() == 0 {
        Map::<Seq<i8>, i8>::empty()
    } else {
        entries_map(s.drop_last()).insert(s.last().0@, s.last().1)
    }
}

impl SequenceMap {
    /// The map this value denotes.
    pub open spec fn view(&self) -> Map<Seq<i8>, i8> {
        entries_map(self.entries@)
    }

    /// Look a change window up.
    pub fn get(&self, key: [i8; 4]) -> (r: Option<i8>)
        ensures
            self@.contains_key(key@) ==> r == Some(self@[key@]),
            !self@.contains_key(key@) ==> r is None,
    {
        lookup(&self.entries, key)
    }
}

/// Look a change window up among the entries; a later entry overrides an
/// earlier one with the same window.
fn lookup(entries: &Vec<([i8; 4], i8)>, key: [i8; 4]) -> (r: Option<i8>)
    ensures
        entries_map(entries@).contains_key(key@) ==> r == Some(entries_map(entries@)[key@]),
        !entries_map(entries@).contains_key(key@) ==> r is None,
{
    let mut i = entries.len();
    assert(entries@.take(i as int) == entries@);
    while i > 0
        invariant
            i <= entries@.len(),
            entries_map(entries@).contains_key(key@) == entries_map(
                entries@.take(i as int),
            ).contains_key(key@),
            entries_map(entries@).contains_key(key@) ==> entries_map(
                entries@.take(i as int),
            )[key@] == entries_map(entries@)[key@],
        decreases i,
    {
        i -= 1;
        let e = &entries[i];
        assert(entries@.take(i as int + 1).drop_last() == entries@.take(i as int));
        assert(entries@.take(i as int + 1).last() == entries@[i as int]);
        if e.0[0] == key[0] && e.0[1] == key[1] && e.0[2] == key[2] && e.0[3] == key[3] {
            assert(entries@[i as int].0@ =~= key@);
            return Some(e.1);
        }
        assert(entries@[i as int].0@ != key@) by {
            if entries@[i as int].0@ =~= key@ {
                assert(entries@[i as int].0@[0] == key@[0] && entries@[i as int].0@[1] == key@[1]
                    && entries@[i as int].0@[2] == key@[2] && entries@[i as int].0@[3] == key@[3]);
            }
        }
    }
    assert(entries@.take(0) =~= Seq::<([i8; 4], i8)>::empty());
    None
}

impl Secret {
    /// Walk `steps` evolution rounds and record, for each window of four
    /// successive price changes, the price at its first occurrence.
    pub fn make_sequence(&mut self, steps: usize) -> (r: SequenceMap)
        requires
            usize::MAX >= u64::MAX,
            old(self).value * 64 <= usize::MAX,
        ensures
            final(self).value == evolved_times(old(self).value, steps as nat),
            r@ == sequence_map(old(self).value, steps as nat),
    {
        let ghost v0 = self.value;
        let mut entries: Vec<([i8; 4], i8)> = Vec::new();
        let mut deltas: Vec<i8> = Vec::new();
        let mut prev: i8 = (self.value % 10) as i8;
        let mut t: usize = 0;
        while t < steps
            invariant
                usize::MAX >= u64::MAX,
                t <= steps,
                self.value == evolved_times(v0, t as nat),
                t == 0 ==> self.value * 64 <= usize::MAX,
                t > 0 ==> self.value < 16777216,
                0 <= prev <= 9,
                prev == price_at(v0, t as nat),
                deltas@.len() == t,
                forall|j: int| 0 <= j < t ==> deltas@[j] == delta_at(v0, (j + 1) as nat),
                entries_map(entries@) == sequence_map(v0, t as nat),
            decreases steps - t,
        {
            self.evolve();
            t += 1;
            let current: i8 = (self.value % 10) as i8;
            assert(current == price_at(v0, t as nat));
            let d: i8 = current - prev;
            assert(d == delta_at(v0, t as nat));
            deltas.push(d);
            prev = current;
            if t >= 4 {
                let key: [i8; 4] = [deltas[t - 4], deltas[t - 3], deltas[t - 2], deltas[t - 1]];
                assert(key@ =~= window_at(v0, t as nat));
                let seen = lookup(&entries, key);
                let ghost before = entries@;
                if seen.is_none() {
                    entries.push((key, current));
                    assert(entries@.drop_last() =~= before);
                }
            } else {
                assert(sequence_map(v0, t as nat) =~= entries_map(entries@));
            }
        }
        SequenceMap { entries }
    }
}

/// The views of the buyers' window maps.
pub open spec fn map_views(ms: Seq<SequenceMap>) -> Seq<Map<Seq<i8>, i8>> {
    ms.map_values(|m: SequenceMap| m@)
}

/// What selling at window `key` earns over all buyers: each map pays
/// its price for the window, absent windows pay nothing.
pub open spec fn total_for(ms: Seq<Map<Seq<i8>, i8>>, key: Seq<i8>) -> int
    decreases ms.len(),
{
    if ms.len() == 0 {
        0
    } else {
        total_for(ms.drop_last(), key) + if ms.last().contains_key(key) {
            ms.last()[key] as int
        } else {
            0
        }
    }
}

/// A window some buyer sights.
pub open spec fn sighted(ms: Seq<Map<Seq<i8>, i8>>, key: Seq<i8>) -> bool {
    exists|m: int| 0 <= m < ms.len() && (#[trigger] ms[m]).contains_key(key)
}

/// A window held by some map appears among its entries.
proof fn lemma_entries_map_domain(s: Seq<([i8; 4], i8)>, key: Seq<i8>)
    requires
        entries_map(s).contains_key(key),
    ensures
        exists|i: int| 0 <= i < s.len() && (#[trigger] s[i]).0@ == key,
    decreases s.len(),
{
    if s.len() > 0 {
        if s.last().0@ == key {
            assert(s[s.len() - 1].0@ == key);
        } else {
            lemma_entries_map_domain(s.drop_last(), key);
            let i = choose|i: int| 0 <= i < s.drop_last().len() && (#[trigger] s.drop_last()[i]).0@ == key;
            assert(s[i].0@ == key);
        }
    }
}

/// All the buyers' initial secrets.
pub struct Puzzle {
    pub secrets: Vec<Secret>,
}

impl Puzzle {
    /// Walk every buyer `steps` rounds and find the best total price
    /// any one change window earns across all of them.
    pub fn process(&mut self, steps: usize) -> (r: usize)
        requires
            usize::MAX >= u64::MAX,
            old(self).secrets@.len() <= 0x10000000,
            forall|k: int|
                0 <= k < old(self).secrets@.len() ==> (#[trigger] old(self).secrets@[k]).value * 64
                    <= usize::MAX,
        ensures
            ({
                let ms = old(self).secrets@.map_values(
                    |s: Secret| sequence_map(s.value, steps as nat),
                );
                &&& r >= 0
                &&& forall|key: Seq<i8>| sighted(ms, key) ==> total_for(ms, key) <= r
                &&& r > 0 ==> exists|key: Seq<i8>| sighted(ms, key) && total_for(ms, key) == r
            }),
    {
        let ghost ms = old(self).secrets@.map_values(
            |s: Secret| sequence_map(s.value, steps as nat),
        );
        let n = self.secrets.len();
        let mut maps: Vec<SequenceMap> = Vec::new();
        let mut k: usize = 0;
        while k < n
            invariant
                usize::MAX >= u64::MAX,
                n == self.secrets@.len() == old(self).secrets@.len(),
                forall|q: int|
                    k <= q < n ==> self.secrets@[q] == old(self).secrets@[q],
                forall|q: int|
                    0 <= q < n ==> (#[trigger] old(self).secrets@[q]).value * 64 <= usize::MAX,
                ms == old(self).secrets@.map_values(
                    |s: Secret| sequence_map(s.value, steps as nat),
                ),
                k <= n,
                maps@.len() == k,
                forall|q: int| 0 <= q < k ==> (#[trigger] maps@[q])@ == ms[q],
            decreases n - k,
        {
            let m = self.secrets[k].make_sequence(steps);
            assert(m@ == ms[k as int]);
            maps.push(m);
            k += 1;
        }
        let mut keys: Vec<[i8; 4]> = Vec::new();
        let mut mi: usize = 0;
        while mi < n
            invariant
                n == maps@.len(),
                forall|q: int| 0 <= q < n ==> (#[trigger] maps@[q])@ == ms[q],
                mi <= n,
                forall|q: int, e: int|
                    0 <= q < mi && 0 <= e < maps@[q].entries@.len() ==> exists|p: int|
                        0 <= p < keys@.len() && (#[trigger] keys@[p])@ == (#[trigger] maps@[q].entries@[e]).0@,
            decreases n - mi,
        {
            let m = &maps[mi];
            let en = m.entries.len();
            let mut e: usize = 0;
            while e < en
                invariant
                    n == maps@.len(),
                    mi < n,
                    m == &maps@[mi as int],
                    en == m.entries@.len(),
                    e <= en,
                    forall|q: int, ee: int|
                        0 <= q < mi && 0 <= ee < maps@[q].entries@.len() ==> exists|p: int|
                            0 <= p < keys@.len() && (#[trigger] keys@[p])@
                                == (#[trigger] maps@[q].entries@[ee]).0@,
                    forall|ee: int|
                        0 <= ee < e ==> exists|p: int|
                            0 <= p < keys@.len() && (#[trigger] keys@[p])@ == (#[trigger] m.entries@[ee]).0@,
                decreases en - e,
            {
                let key = m.entries[e].0;
                let kn = keys.len();
                let mut found = false;
                let mut p: usize = 0;
                while p < kn && !found
                    invariant
                        kn == keys@.len(),
                        p <= kn,
                        found ==> exists|pp: int|
                            0 <= pp < kn && (#[trigger] keys@[pp])@ == key@,
                        !found ==> forall|pp: int| 0 <= pp < p ==> (#[trigger] keys@[pp])@ != key@,
                    decreases kn - p, (if found { 0int } else { 1int }),
                {
                    let c = &keys[p];
                    if c[0] == key[0] && c[1] == key[1] && c[2] == key[2] && c[3] == key[3] {
                        assert(keys@[p as int]@ =~= key@);
                        found = true;
                    } else {
                        p += 1;
                    }
                }
                if !found {
                    let ghost kold = keys@;
                    keys.push(key);
                    assert(keys@[keys@.len() - 1]@ == key@);
                    assert(forall|pp: int| 0 <= pp < kold.len() ==> keys@[pp] == kold[pp]);
                }
                assert(exists|pp: int| 0 <= pp < keys@.len() && (#[trigger] keys@[pp])@ == key@);
                e += 1;
            }
            proof {
                assert forall|ee: int| 0 <= ee < maps@[mi as int].entries@.len() implies exists|
                    p: int,
                |
                    0 <= p < keys@.len() && (#[trigger] keys@[p])@ == (#[trigger] maps@[
                    mi as int].entries@[ee]).0@ by {
                    assert(maps@[mi as int].entries@[ee] == m.entries@[ee]);
                    assert(exists|p: int|
                        0 <= p < keys@.len() && (#[trigger] keys@[p])@ == (#[trigger] m.entries@[
                        ee]).0@);
                }
            }
            mi += 1;
        }
        let mut best: usize = 0;
        let ghost mut best_key: Seq<i8> = Seq::<i8>::empty();
        let nk = keys.len();
        let mut ki: usize = 0;
        while ki < nk
            invariant
                usize::MAX >= u64::MAX,
                n == maps@.len() <= 0x10000000,
                forall|q: int| 0 <= q < n ==> (#[trigger] maps@[q])@ == ms[q],
                n == ms.len(),
                nk == keys@.len(),
                forall|q: int, e: int|
                    0 <= q < n && 0 <= e < maps@[q].entries@.len() ==> exists|p: int|
                        0 <= p < keys@.len() && (#[trigger] keys@[p])@ == (#[trigger] maps@[q].entries@[e]).0@,
                ki <= nk,
                best >= 0,
                forall|p: int| 0 <= p < ki ==> total_for(ms, (#[trigger] keys@[p])@) <= best,
                best > 0 ==> sighted(ms, best_key) && total_for(ms, best_key) == best,
            decreases nk - ki,
        {
            let key = keys[ki];
            let mut sum: usize = 0;
            let mut q: usize = 0;
            while q < n
                invariant
                    n == maps@.len() <= 0x10000000,
                    forall|m: int| 0 <= m < n ==> (#[trigger] maps@[m])@ == ms[m],
                    n == ms.len(),
                    q <= n,
                    sum == total_for(ms.take(q as int), key@),
                    sum <= q * 127,
                decreases n - q,
            {
                assert(ms.take(q as int + 1).drop_last() =~= ms.take(q as int));
                assert(ms.take(q as int + 1).last() == ms[q as int]);
                match maps[q].get(key) {
                    Some(v) => {
                        proof {
                            lemma_price_nonneg(old(self).secrets@[q as int].value, steps as nat, key@);
                        }
                        assert(v >= 0) by {
                            assert(ms[q as int].contains_key(key@));
                        }
                        sum += v as usize;
                    },
                    None => {},
                }
                q += 1;
            }
            assert(ms.take(n as int) =~= ms);
            if sum > best {
                best = sum;
                proof {
                    best_key = key@;
                    assert(sighted(ms, key@)) by {
                        lemma_total_sighted(ms, key@);
                    }
                }
            }
            ki += 1;
        }
        proof {
            assert forall|key: Seq<i8>| sighted(ms, key) implies total_for(ms, key) <= best by {
                let m = choose|m: int| 0 <= m < ms.len() && (#[trigger] ms[m]).contains_key(key);
                assert(maps@[m]@ == ms[m]);
                lemma_entries_map_domain(maps@[m].entries@, key);
                let e = choose|i: int|
                    0 <= i < maps@[m].entries@.len() && (#[trigger] maps@[m].entries@[i]).0@ == key;
                let p = choose|p: int|
                    0 <= p < keys@.len() && (#[trigger] keys@[p])@ == maps@[m].entries@[e].0@;
                assert(total_for(ms, keys@[p]@) <= best);
            }
        }
        best
    }
}

/// A positive total needs a sighting.
proof fn lemma_total_sighted(ms: Seq<Map<Seq<i8>, i8>>, key: Seq<i8>)
    requires
        total_for(ms, key) > 0,
    ensures
        sighted(ms, key),
    decreases ms.len(),
{
    if ms.len() > 0 {
        if ms.last().contains_key(key) {
            assert(ms[ms.len() - 1].contains_key(key));
        } else {
            lemma_total_sighted(ms.drop_last(), key);
            let m = choose|m: int|
                0 <= m < ms.drop_last().len() && (#[trigger] ms.drop_last()[m]).contains_key(key);
            assert(ms[m].contains_key(key));
        }
    }
}

/// Every price in a window map is a digit, hence nonnegative.
proof fn lemma_price_nonneg(v: usize, steps: nat, key: Seq<i8>)
    ensures
        sequence_map(v, steps).contains_key(key) ==> 0 <= sequence_map(v, steps)[key] <= 9,
    decreases steps,
{
    if steps >= 4 {
        lemma_price_nonneg(v, (steps - 1) as nat, key);
    }
}

} // verus!
