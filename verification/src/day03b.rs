use vstd::prelude::*;
use vstd::string::StringSliceAdditionalSpecFns;
use crate::text::{digits_val, is_digit, parse_usize};

verus! {

/// One token of the corrupted memory, laid at the byte where it starts.
#[derive(Clone, Copy, Debug, PartialEq, Eq, Structural)]
pub enum Token {
    Do,
    Dont,
    Mul(usize),
    Blank,
}

/// The literal `pat` starts at byte `i` of `s`.
pub open spec fn lit_at(s: Seq<u8>, i: int, pat: Seq<u8>) -> bool {
    &&& 0 <= i
    &&& i + pat.len() <= s.len()
    &&& s.subrange(i, i + pat.len()) == pat
}

/// Where the digit run starting at `i` ends.
pub open spec fn digit_run_end(s: Seq<u8>, i: int) -> int
    decreases s.len() - i,
{
    if i < 0 || i >= s.len() || !is_digit(s[i]) {
        i
    } else {
        digit_run_end(s, i + 1)
    }
}

/// The bytes of `do()`.
pub open spec fn do_lit() -> Seq<u8> {
    seq![0x64u8, 0x6fu8, 0x28u8, 0x29u8]
}

/// The bytes of `don't()`.
pub open spec fn dont_lit() -> Seq<u8> {
    seq![0x64u8, 0x6fu8, 0x6eu8, 0x27u8, 0x74u8, 0x28u8, 0x29u8]
}

/// The bytes of `mul(`.
pub open spec fn mul_lit() -> Seq<u8> {
    seq![0x6du8, 0x75u8, 0x6cu8, 0x28u8]
}

/// A multiply instruction starts at byte `i`: `mul(`, digits, a comma,
/// digits and a closing parenthesis.
pub open spec fn mul_shape_at(s: Seq<u8>, i: int) -> bool {
    let a_end = digit_run_end(s, i + 4);
    let b_end = digit_run_end(s, a_end + 1);
    &&& lit_at(s, i, mul_lit())
    &&& a_end > i + 4 - 1 + 1
    &&& a_end < s.len()
    &&& s[a_end] == 0x2c
    &&& b_end > a_end + 1
    &&& b_end < s.len()
    &&& s[b_end] == 0x29
}

/// The left factor of the multiply instruction at `i`.
pub open spec fn mul_a(s: Seq<u8>, i: int) -> nat {
    digits_val(s.subrange(i + 4, digit_run_end(s, i + 4)))
}

/// The right factor of the multiply instruction at `i`.
pub open spec fn mul_b(s: Seq<u8>, i: int) -> nat {
    let a_end = digit_run_end(s, i + 4);
    digits_val(s.subrange(a_end + 1, digit_run_end(s, a_end + 1)))
}

/// The token laid at byte `i`.
pub open spec fn token_at(s: Seq<u8>, i: int) -> Token {
    if lit_at(s, i, do_lit()) {
        Token::Do
    } else if lit_at(s, i, dont_lit()) {
        Token::Dont
    } else if mul_shape_at(s, i) {
        Token::Mul((mul_a(s, i) * mul_b(s, i)) as usize)
    } else {
        Token::Blank
    }
}

/// Every multiply instruction in `s` keeps its factors and product
/// within the machine word.
pub open spec fn muls_fit(s: Seq<u8>) -> bool {
    forall|i: int|
        #[trigger] mul_shape_at(s, i) ==> mul_a(s, i) <= usize::MAX && mul_b(s, i) <= usize::MAX
            && mul_a(s, i) * mul_b(s, i) <= usize::MAX
}

/// Whether the literal `pat` starts at byte `i`.
fn match_lit(s: &[u8], i: usize, pat: &[u8]) -> (r: bool)
    requires
        i <= s@.len(),
    ensures
        r == lit_at(s@, i as int, pat@),
{
    let m = pat.len();
    let n = s.len();
    if n - i < m {
        assert(!lit_at(s@, i as int, pat@));
        return false;
    }
    let mut k: usize = 0;
    while k < m
        invariant
            i + m <= n == s@.len(),
            m == pat@.len(),
            k <= m,
            forall|q: int| 0 <= q < k ==> s@[i + q] == pat@[q],
        decreases m - k,
    {
        if s[i + k] != pat[k] {
            assert(s@.subrange(i as int, i + pat@.len())[k as int] != pat@[k as int]);
            return false;
        }
        k += 1;
    }
    assert(s@.subrange(i as int, i + pat@.len()) =~= pat@);
    true
}

/// The end of the digit run starting at `i`.
fn scan_digits(s: &[u8], i: usize) -> (r: usize)
    requires
        i <= s@.len(),
    ensures
        r == digit_run_end(s@, i as int),
        i <= r <= s@.len(),
        forall|q: int| i <= q < r ==> is_digit(s@[q]),
{
    let n = s.len();
    let mut k: usize = i;
    while k < n && s[k] >= 0x30 && s[k] <= 0x39
        invariant
            i <= k <= n == s@.len(),
            digit_run_end(s@, i as int) == digit_run_end(s@, k as int),
            forall|q: int| i <= q < k ==> is_digit(s@[q]),
        decreases n - k,
    {
        k += 1;
    }
    k
}

/// Lay out one token per byte of the corrupted memory: each `do()`,
/// `don't()` and well-formed `mul(a,b)` at the byte where it starts,
/// blanks everywhere else.
pub fn extract(s: &str) -> (r: Vec<Token>)
    requires
        muls_fit(s.spec_bytes()),
    ensures
        r@.len() == s.spec_bytes().len(),
        forall|i: int| 0 <= i < r@.len() ==> r@[i] == token_at(s.spec_bytes(), i),
{
    let bytes = s.as_bytes();
    let n = bytes.len();
    let mut tokens: Vec<Token> = Vec::new();
    let mut i: usize = 0;
    while i < n
        invariant
            n == bytes@.len(),
            bytes@ == s.spec_bytes(),
            muls_fit(s.spec_bytes()),
            i <= n,
            tokens@.len() == i,
            forall|q: int| 0 <= q < i ==> tokens@[q] == token_at(bytes@, q),
        decreases n - i,
    {
        let do_pat: [u8; 4] = [0x64, 0x6f, 0x28, 0x29];
        let dont_pat: [u8; 7] = [0x64, 0x6f, 0x6e, 0x27, 0x74, 0x28, 0x29];
        let mul_pat: [u8; 4] = [0x6d, 0x75, 0x6c, 0x28];
        assert(do_pat@ =~= do_lit());
        assert(dont_pat@ =~= dont_lit());
        assert(mul_pat@ =~= mul_lit());
        let token = if match_lit(bytes, i, &do_pat) {
            Token::Do
        } else if match_lit(bytes, i, &dont_pat) {
            Token::Dont
        } else if match_lit(bytes, i, &mul_pat) {
            let a_end = scan_digits(bytes, i + 4);
            if a_end == i + 4 || a_end >= n || bytes[a_end] != 0x2c {
                assert(!mul_shape_at(bytes@, i as int));
                Token::Blank
            } else {
                let b_end = scan_digits(bytes, a_end + 1);
                if b_end == a_end + 1 || b_end >= n || bytes[b_end] != 0x29 {
                    assert(!mul_shape_at(bytes@, i as int));
                    Token::Blank
                } else {
                    assert(mul_shape_at(bytes@, i as int));
                    let mut a_digits: Vec<u8> = Vec::new();
                    let mut q: usize = i + 4;
                    while q < a_end
                        invariant
                            i + 4 <= q <= a_end <= bytes@.len(),
                            a_digits@ == bytes@.subrange(i + 4, q as int),
                        decreases a_end - q,
                    {
                        a_digits.push(bytes[q]);
                        assert(a_digits@ =~= bytes@.subrange(i + 4, q + 1));
                        q += 1;
                    }
                    let mut b_digits: Vec<u8> = Vec::new();
                    let mut q2: usize = a_end + 1;
                    while q2 < b_end
                        invariant
                            a_end + 1 <= q2 <= b_end <= bytes@.len(),
                            b_digits@ == bytes@.subrange(a_end + 1, q2 as int),
                        decreases b_end - q2,
                    {
                        b_digits.push(bytes[q2]);
                        assert(b_digits@ =~= bytes@.subrange(a_end + 1, q2 + 1));
                        q2 += 1;
                    }
                    assert(crate::text::all_digits(a_digits@));
                    assert(crate::text::all_digits(b_digits@));
                    let a = parse_usize(a_digits.as_slice()).unwrap();
                    let b = parse_usize(b_digits.as_slice()).unwrap();
                    assert(a == mul_a(bytes@, i as int) && b == mul_b(bytes@, i as int));
                    Token::Mul(a * b)
                }
            }
        } else {
            Token::Blank
        };
        tokens.push(token);
        i += 1;
    }
    tokens
}

/// Whether multiplications count after the first `k` tokens: the last
/// switch decides, and at the start they count.
pub open spec fn active_state(ts: Seq<Token>, k: int) -> bool
    decreases k,
{
    if k <= 0 {
        true
    } else {
        match ts[k - 1] {
            Token::Do => true,
            Token::Dont => false,
            _ => active_state(ts, k - 1),
        }
    }
}

/// The sum of the products of the enabled multiplications among the
/// first `k` tokens.
pub open spec fn mul_sum(ts: Seq<Token>, k: int) -> int
    decreases k,
{
    if k <= 0 {
        0
    } else {
        mul_sum(ts, k - 1) + match ts[k - 1] {
            Token::Mul(v) => if active_state(ts, k - 1) {
                v as int
            } else {
                0
            },
            _ => 0,
        }
    }
}

/// Prefix sums never shrink.
proof fn lemma_mul_sum_le(ts: Seq<Token>, k: int, n: int)
    requires
        0 <= k <= n,
    ensures
        mul_sum(ts, k) <= mul_sum(ts, n),
    decreases n - k,
{
    if k < n {
        lemma_mul_sum_le(ts, k + 1, n);
    }
}

/// Sum the enabled multiplications, switching on `do()` and off
/// `don't()`.
pub fn process(tokens: &[Token]) -> (r: usize)
    requires
        mul_sum(tokens@, tokens@.len() as int) <= usize::MAX,
    ensures
        r == mul_sum(tokens@, tokens@.len() as int),
{
    let n = tokens.len();
    let mut out: usize = 0;
    let mut active = true;
    let mut i: usize = 0;
    while i < n
        invariant
            n == tokens@.len(),
            i <= n,
            active == active_state(tokens@, i as int),
            out == mul_sum(tokens@, i as int),
            mul_sum(tokens@, n as int) <= usize::MAX,
        decreases n - i,
    {
        proof {
            lemma_mul_sum_le(tokens@, i as int + 1, n as int);
        }
        match tokens[i] {
            Token::Do => {
                active = true;
            },
            Token::Dont => {
                active = false;
            },
            Token::Mul(val) => {
                if active {
                    out += val;
                }
            },
            Token::Blank => {},
        }
        i += 1;
    }
    out
}

} // verus!
