use vstd::prelude::*;
use crate::day11a::{blink_all, blink_stone, blink_times, blinks_ok, stone_ok, stones_ok};
use crate::decimal::{digits_of, lemma_digits_bounds, lemma_pow10_19, lemma_pow10_increases, pow10};

verus! {

/// Count the decimal digits of a number; zero has none.
pub fn digit_count(num: &usize) -> (r: usize)
    requires
        usize::MAX >= u64::MAX,
        *num < 10000000000000000000,
    ensures
        r == digits_of(*num as nat),
{
    crate::day11a::digit_count(num)
}

/// Split a number into its upper and lower halves by digits: the upper
/// digits and the lower `ndigits / 2` digits.
pub fn split_digits(num: &usize, ndigits: usize) -> (r: (usize, usize))
    requires
        pow10((ndigits / 2) as nat) <= usize::MAX,
    ensures
        r.0 == *num as nat / pow10((ndigits / 2) as nat),
        r.1 == *num as nat % pow10((ndigits / 2) as nat),
{
    crate::day11a::split_digits(num, ndigits)
}

/// How many stones a single stone becomes after `n` blinks.
pub open spec fn stone_count(s: usize, n: nat) -> nat
    decreases n,
{
    if n == 0 {
        1
    } else {
        let b = blink_stone(s);
        if b.len() == 1 {
            stone_count(b[0], (n - 1) as nat)
        } else {
            stone_count(b[0], (n - 1) as nat) + stone_count(b[1], (n - 1) as nat)
        }
    }
}

/// A stone in a compressed row: a plain value, or a reference to the
/// whole brood of a single digit some number of blinks ago.
#[derive(Debug)]
pub enum Stone {
    Val(usize),
    Brood((usize, usize)),
}

/// The plain stones an entry stands for.
pub open spec fn denote(e: Stone) -> Seq<usize> {
    match e {
        Stone::Val(v) => seq![v],
        Stone::Brood((d, it)) => blink_times(seq![d], it as nat),
    }
}

/// The plain stones a compressed row stands for.
pub open spec fn denote_all(es: Seq<Stone>) -> Seq<usize>
    decreases es.len(),
{
    if es.len() == 0 {
        Seq::<usize>::empty()
    } else {
        denote_all(es.drop_last()) + denote(es.last())
    }
}

/// Every brood reference names a digit and an age within bounds.
pub open spec fn refs_bounded(es: Seq<Stone>, bound: int) -> bool {
    forall|j: int|
        0 <= j < es.len() ==> ((#[trigger] es[j]) matches Stone::Brood(p) ==> p.0 < 10 && p.1
            <= bound)
}

/// Blinking a concatenation blinks the parts.
proof fn lemma_blink_all_add(a: Seq<usize>, b: Seq<usize>)
    ensures
        blink_all(a + b) == blink_all(a) + blink_all(b),
    decreases b.len(),
{
    if b.len() == 0 {
        assert(a + b =~= a);
        assert(blink_all(a) + blink_all(b) =~= blink_all(a));
    } else {
        lemma_blink_all_add(a, b.drop_last());
        assert((a + b).drop_last() =~= a + b.drop_last());
        assert((a + b).last() == b.last());
        assert(blink_all(a + b) =~= blink_all(a) + blink_all(b));
    }
}

/// Blinking a concatenation several times blinks the parts several
/// times.
proof fn lemma_blink_times_add(a: Seq<usize>, b: Seq<usize>, k: nat)
    ensures
        blink_times(a + b, k) == blink_times(a, k) + blink_times(b, k),
    decreases k,
{
    if k > 0 {
        lemma_blink_all_add(a, b);
        lemma_blink_times_add(blink_all(a), blink_all(b), (k - 1) as nat);
    }
}

/// The count of a stone's brood is the length of its blinked row.
proof fn lemma_stone_count_is_len(s: usize, n: nat)
    ensures
        stone_count(s, n) == blink_times(seq![s], n).len(),
    decreases n,
{
    if n > 0 {
        let b = blink_stone(s);
        assert(blink_all(seq![s]) =~= b) by {
            assert(seq![s].drop_last() =~= Seq::<usize>::empty());
            assert(blink_all(Seq::<usize>::empty()) =~= Seq::<usize>::empty());
        }
        if b.len() == 1 {
            assert(b =~= seq![b[0]]);
            lemma_stone_count_is_len(b[0], (n - 1) as nat);
        } else {
            assert(b.len() == 2);
            assert(b =~= seq![b[0]] + seq![b[1]]);
            lemma_blink_times_add(seq![b[0]], seq![b[1]], (n - 1) as nat);
            lemma_stone_count_is_len(b[0], (n - 1) as nat);
            lemma_stone_count_is_len(b[1], (n - 1) as nat);
        }
    }
}

/// Whatever one entry stands for, the whole row stands for too.
proof fn lemma_denote_chunk(es: Seq<Stone>, j: int, x: usize)
    requires
        0 <= j < es.len(),
        denote(es[j]).contains(x),
    ensures
        denote_all(es).contains(x),
    decreases es.len(),
{
    if j == es.len() - 1 {
        let k = choose|k: int| 0 <= k < denote(es[j]).len() && denote(es[j])[k] == x;
        assert(denote_all(es)[denote_all(es.drop_last()).len() + k] == x);
    } else {
        lemma_denote_chunk(es.drop_last(), j, x);
        let k = choose|k: int|
            0 <= k < denote_all(es.drop_last()).len() && denote_all(es.drop_last())[k] == x;
        assert(denote_all(es)[k] == x);
    }
}

/// After any number of blinks below the safe horizon the row is still
/// blinkable.
proof fn lemma_blinks_ok_at(s: Seq<usize>, k: nat, b: nat)
    requires
        blinks_ok(s, k),
        b < k,
    ensures
        stones_ok(blink_times(s, b)),
    decreases b,
{
    if b == 0 {
    } else {
        lemma_blinks_ok_at(blink_all(s), (k - 1) as nat, (b - 1) as nat);
    }
}

/// Blink a compressed row once: plain stones follow the stone rules,
/// with single-digit children compressed into fresh brood references,
/// and brood references age by one blink.
fn blink_entries(entries: &Vec<Stone>, Ghost(bound): Ghost<int>) -> (r: Vec<Stone>)
    requires
        usize::MAX >= u64::MAX,
        stones_ok(denote_all(entries@)),
        refs_bounded(entries@, bound),
        -1 <= bound < usize::MAX,
    ensures
        denote_all(r@) == blink_all(denote_all(entries@)),
        refs_bounded(r@, bound + 1),
{
    let n = entries.len();
    let mut next: Vec<Stone> = Vec::new();
    let mut j: usize = 0;
    while j < n
        invariant
            usize::MAX >= u64::MAX,
            n == entries@.len(),
            j <= n,
            stones_ok(denote_all(entries@)),
            refs_bounded(entries@, bound),
            denote_all(next@) == blink_all(denote_all(entries@.take(j as int))),
            refs_bounded(next@, bound + 1),
        decreases n - j,
    {
        assert(entries@.take(j as int + 1).drop_last() == entries@.take(j as int));
        let ghost dpre = denote_all(entries@.take(j as int));
        let ghost dhere = denote(entries@[j as int]);
        proof {
            lemma_blink_all_add(dpre, dhere);
            assert(denote_all(entries@.take(j as int + 1)) == dpre + dhere);
        }
        let ghost before = next@;
        match &entries[j] {
            Stone::Val(value) => {
                let s = *value;
                assert(dhere =~= seq![s]);
                assert(blink_all(dhere) =~= blink_stone(s)) by {
                    assert(seq![s].drop_last() =~= Seq::<usize>::empty());
                    assert(blink_all(Seq::<usize>::empty()) =~= Seq::<usize>::empty());
                }
                assert(stone_ok(s)) by {
                    assert(denote(entries@[j as int]).contains(s));
                    lemma_denote_chunk(entries@, j as int, s);
                    let k = choose|k: int|
                        0 <= k < denote_all(entries@).len() && denote_all(entries@)[k] == s;
                }
                if s == 0 {
                    next.push(Stone::Val(1));
                    assert(next@.drop_last() == before);
                    assert(denote_all(next@) =~= denote_all(before) + denote(
                        Stone::Val(1usize),
                    ));
                    assert(blink_stone(s) =~= denote(Stone::Val(1usize)));
                } else {
                    let dc = digit_count(&s);
                    if dc % 2 == 0 {
                        proof {
                            lemma_digits_bounds(s as nat);
                            lemma_pow10_19();
                            assert(dc <= 19) by {
                                if dc >= 20 {
                                    if dc - 1 > 19 {
                                        lemma_pow10_increases(19, (dc - 1) as nat);
                                    }
                                    assert(false);
                                }
                            }
                            if dc / 2 < 19 {
                                lemma_pow10_increases((dc / 2) as nat, 19);
                            }
                        }
                        let halves = split_digits(&s, dc);
                        push_stone(&mut next, halves.0);
                        let ghost mid = next@;
                        push_stone(&mut next, halves.1);
                        assert(denote_all(mid) == denote_all(before) + seq![halves.0]);
                        assert(denote_all(next@) == denote_all(mid) + seq![halves.1]);
                        assert(blink_stone(s) =~= seq![halves.0, halves.1]);
                        assert(denote_all(next@) =~= denote_all(before) + blink_stone(s));
                    } else {
                        next.push(Stone::Val(s * 2024));
                        assert(next@.drop_last() == before);
                        assert(denote(Stone::Val((s * 2024) as usize)) =~= blink_stone(s));
                        assert(denote_all(next@) =~= denote_all(before) + blink_stone(s));
                    }
                }
            },
            Stone::Brood(pair) => {
                let d = pair.0;
                let it = pair.1;
                next.push(Stone::Brood((d, it + 1)));
                proof {
                    assert(next@.drop_last() == before);
                    lemma_blink_shift(seq![d], it as nat);
                    assert(denote(Stone::Brood((d, (it + 1) as usize))) == blink_all(dhere));
                    assert(denote_all(next@) =~= denote_all(before) + blink_all(dhere));
                }
            },
        }
        assert(denote_all(next@) =~= blink_all(denote_all(entries@.take(j as int + 1))));
        j += 1;
    }
    assert(entries@.take(n as int) == entries@);
    next
}

/// Push one plain child, compressing a single digit into a fresh brood
/// reference.
fn push_stone(next: &mut Vec<Stone>, value: usize) -> (r: bool)
    ensures
        final(next)@ == old(next)@.push(
            if value <= 9 {
                Stone::Brood((value, 0usize))
            } else {
                Stone::Val(value)
            },
        ),
        denote_all(final(next)@) == denote_all(old(next)@) + seq![value],
        (final(next)@.last() matches Stone::Brood(p) ==> p.0 < 10 && p.1 == 0),
{
    if value <= 9 {
        next.push(Stone::Brood((value, 0)));
        assert(denote(Stone::Brood((value, 0usize))) =~= seq![value]);
    } else {
        next.push(Stone::Val(value));
    }
    assert(next@.drop_last() == old(next)@);
    assert(denote_all(next@) =~= denote_all(old(next)@) + seq![value]);
    true
}

/// One more blink on top of `k` is a blink of the blinked row.
proof fn lemma_blink_shift(s: Seq<usize>, k: nat)
    ensures
        blink_times(s, k + 1) == blink_all(blink_times(s, k)),
    decreases k,
{
    if k == 0 {
        assert(blink_times(s, 1) == blink_times(blink_all(s), 0));
        assert(blink_times(s, 0) == s);
    } else {
        lemma_blink_shift(blink_all(s), (k - 1) as nat);
        assert(blink_times(s, k + 1) == blink_times(blink_all(s), k));
        assert(blink_times(s, k) == blink_times(blink_all(s), (k - 1) as nat));
    }
}

/// A row prefix never stands for more stones than the row.
proof fn lemma_denote_take_le(es: Seq<Stone>, j: int)
    requires
        0 <= j <= es.len(),
    ensures
        denote_all(es.take(j)).len() <= denote_all(es).len(),
    decreases es.len() - j,
{
    if j < es.len() {
        assert(es.take(j + 1).drop_last() == es.take(j));
        lemma_denote_take_le(es, j + 1);
    } else {
        assert(es.take(j) == es);
    }
}

/// Sum how many stones a compressed row stands for, reading brood sizes
/// from the table, laid out age by age: `rows[t]` holds the counts of
/// each digit's brood at age `t`.
fn total_by_rows(entries: &Vec<Stone>, rows: &Vec<Vec<usize>>) -> (r: usize)
    requires
        forall|t: int|
            0 <= t < rows@.len() ==> (#[trigger] rows@[t])@.len() == 10,
        forall|t: int, d: int|
            0 <= t < rows@.len() && 0 <= d < 10 ==> (#[trigger] rows@[t]@[d]) == stone_count(
                d as usize,
                t as nat,
            ),
        refs_bounded(entries@, rows@.len() - 1),
        denote_all(entries@).len() <= usize::MAX,
    ensures
        r == denote_all(entries@).len(),
{
    let n = entries.len();
    let mut acc: usize = 0;
    let mut j: usize = 0;
    while j < n
        invariant
            n == entries@.len(),
            j <= n,
            forall|t: int|
                0 <= t < rows@.len() ==> (#[trigger] rows@[t])@.len() == 10,
            forall|t: int, d: int|
                0 <= t < rows@.len() && 0 <= d < 10 ==> (#[trigger] rows@[t]@[d]) == stone_count(
                    d as usize,
                    t as nat,
                ),
            refs_bounded(entries@, rows@.len() - 1),
            denote_all(entries@).len() <= usize::MAX,
            acc == denote_all(entries@.take(j as int)).len(),
        decreases n - j,
    {
        assert(entries@.take(j as int + 1).drop_last() == entries@.take(j as int));
        proof {
            lemma_denote_take_le(entries@, j as int + 1);
        }
        let add = match &entries[j] {
            Stone::Val(_) => 1,
            Stone::Brood(pair) => {
                proof {
                    lemma_stone_count_is_len(pair.0, pair.1 as nat);
                }
                rows[pair.1][pair.0]
            },
        };
        assert(add == denote(entries@[j as int]).len());
        acc += add;
        j += 1;
    }
    assert(entries@.take(n as int) == entries@);
    acc
}

/// Build the brood-size table for the ten digits: entry `[d][t]` is how
/// many stones digit `d` becomes after `t` blinks, for `t` up to `num`.
/// Each digit's brood is simulated in compressed form, single-digit
/// children folding back into the table.
pub fn create_sequence(num: usize) -> (r: Vec<Vec<usize>>)
    requires
        usize::MAX >= u64::MAX,
        num < usize::MAX,
        forall|d: int| 0 <= d < 10 ==> #[trigger] blinks_ok(seq![d as usize], num as nat),
        forall|d: int, t: int|
            0 <= d < 10 && 0 <= t <= num ==> #[trigger] stone_count(d as usize, t as nat) <= usize::MAX,
    ensures
        r@.len() == 10,
        forall|d: int| 0 <= d < 10 ==> (#[trigger] r@[d])@.len() == num + 1,
        forall|d: int, t: int|
            0 <= d < 10 && 0 <= t <= num ==> (#[trigger] r@[d]@[t]) == stone_count(
                d as usize,
                t as nat,
            ),
{
    let mut rows: Vec<Vec<usize>> = Vec::new();
    let mut first_row: Vec<usize> = Vec::new();
    let mut d0: usize = 0;
    while d0 < 10
        invariant
            d0 <= 10,
            first_row@.len() == d0,
            forall|d: int| 0 <= d < d0 ==> (#[trigger] first_row@[d]) == 1,
        decreases 10 - d0,
    {
        first_row.push(1);
        d0 += 1;
    }
    rows.push(first_row);
    let mut buffers: Vec<Vec<Stone>> = Vec::new();
    let mut d1: usize = 0;
    while d1 < 10
        invariant
            d1 <= 10,
            buffers@.len() == d1,
            forall|d: int|
                0 <= d < d1 ==> denote_all((#[trigger] buffers@[d])@) == blink_times(
                    seq![d as usize],
                    0,
                ),
            forall|d: int| 0 <= d < d1 ==> refs_bounded((#[trigger] buffers@[d])@, -1),
        decreases 10 - d1,
    {
        let mut b: Vec<Stone> = Vec::new();
        b.push(Stone::Val(d1));
        assert(b@.drop_last() =~= Seq::<Stone>::empty());
        assert(denote_all(Seq::<Stone>::empty()) =~= Seq::<usize>::empty());
        assert(denote_all(b@) == denote_all(b@.drop_last()) + denote(b@.last()));
        assert(denote_all(b@) =~= seq![d1]);
        assert(blink_times(seq![d1], 0) == seq![d1]);
        buffers.push(b);
        d1 += 1;
    }
    let mut k: usize = 0;
    while k < num
        invariant
            usize::MAX >= u64::MAX,
            num < usize::MAX,
            forall|d: int| 0 <= d < 10 ==> #[trigger] blinks_ok(seq![d as usize], num as nat),
            forall|d: int, t: int|
                0 <= d < 10 && 0 <= t <= num ==> #[trigger] stone_count(d as usize, t as nat) <= usize::MAX,
            k <= num,
            rows@.len() == k + 1,
            forall|t: int|
                0 <= t <= k ==> (#[trigger] rows@[t])@.len() == 10,
            forall|t: int, d: int|
                0 <= t <= k && 0 <= d < 10 ==> (#[trigger] rows@[t]@[d]) == stone_count(
                    d as usize,
                    t as nat,
                ),
            buffers@.len() == 10,
            forall|d: int|
                0 <= d < 10 ==> denote_all((#[trigger] buffers@[d])@) == blink_times(
                    seq![d as usize],
                    k as nat,
                ),
            forall|d: int| 0 <= d < 10 ==> refs_bounded((#[trigger] buffers@[d])@, k - 1),
        decreases num - k,
    {
        let mut new_row: Vec<usize> = Vec::new();
        let mut new_buffers: Vec<Vec<Stone>> = Vec::new();
        let mut d: usize = 0;
        while d < 10
            invariant
                usize::MAX >= u64::MAX,
                num < usize::MAX,
                k < num,
                forall|dd: int| 0 <= dd < 10 ==> #[trigger] blinks_ok(seq![dd as usize], num as nat),
                forall|dd: int, t: int|
                    0 <= dd < 10 && 0 <= t <= num ==> #[trigger] stone_count(dd as usize, t as nat)
                        <= usize::MAX,
                rows@.len() == k + 1,
                forall|t: int|
                    0 <= t <= k ==> (#[trigger] rows@[t])@.len() == 10,
                forall|t: int, dd: int|
                    0 <= t <= k && 0 <= dd < 10 ==> (#[trigger] rows@[t]@[dd]) == stone_count(
                        dd as usize,
                        t as nat,
                    ),
                buffers@.len() == 10,
                forall|dd: int|
                    0 <= dd < 10 ==> denote_all((#[trigger] buffers@[dd])@) == blink_times(
                        seq![dd as usize],
                        k as nat,
                    ),
                forall|dd: int| 0 <= dd < 10 ==> refs_bounded((#[trigger] buffers@[dd])@, k - 1),
                d <= 10,
                new_row@.len() == d,
                new_buffers@.len() == d,
                forall|dd: int|
                    0 <= dd < d ==> (#[trigger] new_row@[dd]) == stone_count(
                        dd as usize,
                        (k + 1) as nat,
                    ),
                forall|dd: int|
                    0 <= dd < d ==> denote_all((#[trigger] new_buffers@[dd])@) == blink_times(
                        seq![dd as usize],
                        (k + 1) as nat,
                    ),
                forall|dd: int|
                    0 <= dd < d ==> refs_bounded((#[trigger] new_buffers@[dd])@, k as int),
            decreases 10 - d,
        {
            proof {
                lemma_blinks_ok_at(seq![d as usize], num as nat, k as nat);
            }
            let stepped = blink_entries(&buffers[d], Ghost(k - 1));
            proof {
                lemma_blink_shift(seq![d as usize], k as nat);
                lemma_stone_count_is_len(d, (k + 1) as nat);
            }
            let value = total_by_rows(&stepped, &rows);
            new_row.push(value);
            new_buffers.push(stepped);
            d += 1;
        }
        rows.push(new_row);
        buffers = new_buffers;
        k += 1;
    }
    let mut sequence: Vec<Vec<usize>> = Vec::new();
    let mut d2: usize = 0;
    while d2 < 10
        invariant
            num < usize::MAX,
            rows@.len() == num + 1,
            forall|t: int|
                0 <= t <= num ==> (#[trigger] rows@[t])@.len() == 10,
            forall|t: int, dd: int|
                0 <= t <= num && 0 <= dd < 10 ==> (#[trigger] rows@[t]@[dd]) == stone_count(
                    dd as usize,
                    t as nat,
                ),
            d2 <= 10,
            sequence@.len() == d2,
            forall|dd: int|
                0 <= dd < d2 ==> (#[trigger] sequence@[dd])@.len() == num + 1,
            forall|dd: int, t: int|
                0 <= dd < d2 && 0 <= t <= num ==> (#[trigger] sequence@[dd]@[t]) == stone_count(
                    dd as usize,
                    t as nat,
                ),
        decreases 10 - d2,
    {
        let mut col: Vec<usize> = Vec::new();
        let mut t: usize = 0;
        while t < num + 1
            invariant
                num < usize::MAX,
                d2 < 10,
                rows@.len() == num + 1,
                forall|tt: int|
                    0 <= tt <= num ==> (#[trigger] rows@[tt])@.len() == 10,
                forall|tt: int, dd: int|
                    0 <= tt <= num && 0 <= dd < 10 ==> (#[trigger] rows@[tt]@[dd]) == stone_count(
                        dd as usize,
                        tt as nat,
                    ),
                t <= num + 1,
                col@.len() == t,
                forall|tt: int|
                    0 <= tt < t ==> (#[trigger] col@[tt]) == stone_count(d2 as usize, tt as nat),
            decreases num + 1 - t,
        {
            col.push(rows[t][d2]);
            t += 1;
        }
        sequence.push(col);
        d2 += 1;
    }
    sequence
}

/// How many stones `init` becomes after `nblinks` blinks, using the
/// brood-size table for single digits.
pub fn count_stone(init: usize, sequence: &[Vec<usize>], nblinks: usize) -> (r: usize)
    requires
        usize::MAX >= u64::MAX,
        nblinks < usize::MAX,
        blinks_ok(seq![init], nblinks as nat),
        sequence@.len() == 10,
        forall|d: int| 0 <= d < 10 ==> (#[trigger] sequence@[d])@.len() >= nblinks,
        forall|d: int, t: int|
            0 <= d < 10 && 0 <= t < nblinks ==> (#[trigger] sequence@[d]@[t]) == stone_count(
                d as usize,
                t as nat,
            ),
        stone_count(init, nblinks as nat) <= usize::MAX,
    ensures
        r == stone_count(init, nblinks as nat),
{
    let mut buffer: Vec<Stone> = Vec::new();
    buffer.push(Stone::Val(init));
    assert(buffer@.drop_last() =~= Seq::<Stone>::empty());
    assert(denote_all(Seq::<Stone>::empty()) =~= Seq::<usize>::empty());
    assert(denote_all(buffer@) == denote_all(buffer@.drop_last()) + denote(buffer@.last()));
    assert(denote_all(buffer@) =~= seq![init]);
    let mut k: usize = 0;
    while k < nblinks
        invariant
            usize::MAX >= u64::MAX,
            nblinks < usize::MAX,
            blinks_ok(seq![init], nblinks as nat),
            k <= nblinks,
            denote_all(buffer@) == blink_times(seq![init], k as nat),
            refs_bounded(buffer@, k - 1),
        decreases nblinks - k,
    {
        proof {
            lemma_blinks_ok_at(seq![init], nblinks as nat, k as nat);
        }
        let stepped = blink_entries(&buffer, Ghost(k - 1));
        proof {
            lemma_blink_shift(seq![init], k as nat);
        }
        buffer = stepped;
        k += 1;
    }
    proof {
        lemma_stone_count_is_len(init, nblinks as nat);
    }
    let n = buffer.len();
    let mut acc: usize = 0;
    let mut j: usize = 0;
    while j < n
        invariant
            n == buffer@.len(),
            j <= n,
            sequence@.len() == 10,
            forall|d: int| 0 <= d < 10 ==> (#[trigger] sequence@[d])@.len() >= nblinks,
            forall|d: int, t: int|
                0 <= d < 10 && 0 <= t < nblinks ==> (#[trigger] sequence@[d]@[t]) == stone_count(
                    d as usize,
                    t as nat,
                ),
            refs_bounded(buffer@, nblinks - 1),
            denote_all(buffer@).len() <= usize::MAX,
            acc == denote_all(buffer@.take(j as int)).len(),
        decreases n - j,
    {
        assert(buffer@.take(j as int + 1).drop_last() == buffer@.take(j as int));
        proof {
            lemma_denote_take_le(buffer@, j as int + 1);
        }
        let add = match &buffer[j] {
            Stone::Val(_) => 1,
            Stone::Brood(pair) => {
                proof {
                    lemma_stone_count_is_len(pair.0, pair.1 as nat);
                }
                sequence[pair.0][pair.1]
            },
        };
        assert(add == denote(buffer@[j as int]).len());
        acc += add;
        j += 1;
    }
    assert(buffer@.take(n as int) == buffer@);
    acc
}

} // verus!
