use vstd::prelude::*;

verus! {

/// 10 to the power `e`.
pub open spec fn pow10(e: nat) -> nat
    decreases e,
{
    if e == 0 {
        1
    } else {
        10 * pow10((e - 1) as nat)
    }
}

/// How many decimal digits `n` has; zero has none.
pub open spec fn digits_of(n: nat) -> nat
    decreases n,
{
    if n == 0 {
        0
    } else {
        1 + digits_of(n / 10)
    }
}

/// Powers of ten grow strictly.
pub proof fn lemma_pow10_increases(a: nat, b: nat)
    requires
        a < b,
    ensures
        pow10(a) < pow10(b),
    decreases b,
{
    lemma_pow10_pos(a);
    if a + 1 < b {
        lemma_pow10_increases(a, (b - 1) as nat);
    }
}

/// Powers of ten are positive.
pub proof fn lemma_pow10_pos(e: nat)
    ensures
        pow10(e) >= 1,
    decreases e,
{
    if e > 0 {
        lemma_pow10_pos((e - 1) as nat);
    }
}

/// A positive number lies between the powers of ten that its digit
/// count names.
pub proof fn lemma_digits_bounds(n: nat)
    requires
        n > 0,
    ensures
        digits_of(n) >= 1,
        pow10((digits_of(n) - 1) as nat) <= n < pow10(digits_of(n)),
    decreases n,
{
    if n < 10 {
        assert(n / 10 == 0);
        assert(digits_of(n / 10) == 0);
        assert(digits_of(n) == 1);
    } else {
        lemma_digits_bounds(n / 10);
        let d = digits_of(n / 10);
        assert(digits_of(n) == d + 1);
        assert(pow10((d - 1) as nat) <= n / 10 < pow10(d));
        assert(n < 10 * pow10(d)) by {
            assert(n / 10 + 1 <= pow10(d));
            assert(n < 10 * (n / 10) + 10);
            assert(10 * (n / 10) + 10 <= 10 * pow10(d)) by (nonlinear_arith)
                requires
                    n / 10 + 1 <= pow10(d),
            ;
        }
        assert(pow10(d) <= n) by {
            assert(10 * pow10((d - 1) as nat) <= 10 * (n / 10)) by (nonlinear_arith)
                requires
                    pow10((d - 1) as nat) <= n / 10,
            ;
            assert(10 * (n / 10) <= n);
        }
    }
}

/// The digit count is the only count whose powers of ten sandwich the
/// number.
pub proof fn lemma_digits_unique(n: nat, d: nat)
    requires
        d >= 1,
        pow10((d - 1) as nat) <= n < pow10(d),
    ensures
        digits_of(n) == d,
{
    lemma_pow10_pos((d - 1) as nat);
    assert(n > 0);
    lemma_digits_bounds(n);
    let dn = digits_of(n);
    if dn < d {
        lemma_pow10_increases(dn, d);
        assert(dn <= d - 1);
        if dn < d - 1 {
            lemma_pow10_increases(dn, (d - 1) as nat);
        }
        assert(pow10(dn) <= pow10((d - 1) as nat));
        assert(false);
    }
    if dn > d {
        assert(d <= dn - 1);
        if d < dn - 1 {
            lemma_pow10_increases(d, (dn - 1) as nat);
        }
        assert(pow10(d) <= pow10((dn - 1) as nat));
        assert(false);
    }
}

/// The word-sized decimal range: 10 to the 19th is 10000000000000000000.
pub proof fn lemma_pow10_19()
    ensures
        pow10(19) == 10000000000000000000,
{
    reveal_with_fuel(pow10, 21);
}

/// 10 to the power `e`, computed by repeated multiplication.
pub fn power_of_ten(e: usize) -> (r: usize)
    requires
        pow10(e as nat) <= usize::MAX,
    ensures
        r == pow10(e as nat),
{
    let mut r: usize = 1;
    let mut j: usize = 0;
    while j < e
        invariant
            j <= e,
            r == pow10(j as nat),
            pow10(e as nat) <= usize::MAX,
        decreases e - j,
    {
        proof {
            if j + 1 < e {
                lemma_pow10_increases(j as nat + 1, e as nat);
            }
        }
        r = r * 10;
        j += 1;
    }
    r
}

} // verus!
