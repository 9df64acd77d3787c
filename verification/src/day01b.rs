use vstd::prelude::*;
use vstd::string::StringSliceAdditionalSpecFns;
use crate::text::{
    after_first, all_digits, before_first, digits_val, lines_of, parse_usize, split_lines,
    split_once, trim, trimmed,
};

verus! {

/// A line holds two location numbers: digits, one space, then digits,
/// trailing whitespace tolerated, each fitting the machine word.
pub open spec fn pair_line_ok(line: Seq<u8>) -> bool {
    &&& line.contains(0x20)
    &&& all_digits(before_first(line, 0x20))
    &&& digits_val(before_first(line, 0x20)) <= usize::MAX
    &&& all_digits(trimmed(after_first(line, 0x20)))
    &&& digits_val(trimmed(after_first(line, 0x20))) <= usize::MAX
}

/// The left number on a line.
pub open spec fn left_of(line: Seq<u8>) -> nat {
    digits_val(before_first(line, 0x20))
}

/// The right number on a line.
pub open spec fn right_of(line: Seq<u8>) -> nat {
    digits_val(trimmed(after_first(line, 0x20)))
}

/// Read the two columns of location numbers.  Succeeds exactly when
/// every line holds a pair.
pub fn extract_lists(s: &str) -> (r: Option<[Vec<usize>; 2]>)
    ensures
        r is Some <==> (forall|k: int|
            0 <= k < lines_of(s.spec_bytes()).len() ==> pair_line_ok(
                #[trigger] lines_of(s.spec_bytes())[k],
            )),
        r matches Some(ls) ==> {
            &&& ls@[0]@.len() == lines_of(s.spec_bytes()).len()
            &&& ls@[1]@.len() == lines_of(s.spec_bytes()).len()
            &&& forall|k: int|
                0 <= k < lines_of(s.spec_bytes()).len() ==> ls@[0]@[k] == left_of(
                    #[trigger] lines_of(s.spec_bytes())[k],
                ) && ls@[1]@[k] == right_of(lines_of(s.spec_bytes())[k])
        },
{
    let lines = split_lines(s.as_bytes());
    let mut lefts: Vec<usize> = Vec::new();
    let mut rights: Vec<usize> = Vec::new();
    let n = lines.len();
    let mut k: usize = 0;
    while k < n
        invariant
            n == lines@.len(),
            crate::text::views_of(lines@) == lines_of(s.spec_bytes()),
            k <= n,
            lefts@.len() == k,
            rights@.len() == k,
            forall|j: int| 0 <= j < k ==> pair_line_ok(#[trigger] lines@[j]@),
            forall|j: int|
                0 <= j < k ==> lefts@[j] == left_of(#[trigger] lines@[j]@) && rights@[j]
                    == right_of(lines@[j]@),
        decreases n - k,
    {
        assert(lines@[k as int]@ == lines_of(s.spec_bytes())[k as int]);
        let parts = match split_once(lines[k].as_slice(), 0x20) {
            Some(p) => p,
            None => {
                return None;
            },
        };
        let a = match parse_usize(parts.0.as_slice()) {
            Some(v) => v,
            None => {
                return None;
            },
        };
        let bt = trim(parts.1.as_slice());
        let b = match parse_usize(bt.as_slice()) {
            Some(v) => v,
            None => {
                return None;
            },
        };
        lefts.push(a);
        rights.push(b);
        k += 1;
    }
    assert(forall|j: int|
        0 <= j < lines_of(s.spec_bytes()).len() ==> pair_line_ok(
            #[trigger] lines_of(s.spec_bytes())[j],
        ));
    Some([lefts, rights])
}

/// How often `x` occurs in `s`.
pub open spec fn count_matches(s: Seq<usize>, x: usize) -> nat
    decreases s.len(),
{
    if s.len() == 0 {
        0
    } else {
        count_matches(s.drop_last(), x) + if s.last() == x {
            1nat
        } else {
            0nat
        }
    }
}

/// The similarity score of the first `i` left entries: each left number
/// times how often it occurs on the right.
pub open spec fn similarity_prefix(a: Seq<usize>, b: Seq<usize>, i: int) -> int
    decreases i,
{
    if i <= 0 {
        0
    } else {
        similarity_prefix(a, b, i - 1) + a[i - 1] * count_matches(b, a[i - 1])
    }
}

/// The similarity score of the two columns.
pub open spec fn similarity(a: Seq<usize>, b: Seq<usize>) -> int {
    similarity_prefix(a, b, a.len() as int)
}

/// Count how often `x` occurs in `s`.
fn count_occurrences(s: &Vec<usize>, x: usize) -> (r: usize)
    ensures
        r == count_matches(s@, x),
{
    let n = s.len();
    let mut r: usize = 0;
    let mut i: usize = 0;
    while i < n
        invariant
            n == s@.len(),
            i <= n,
            r == count_matches(s@.take(i as int), x),
            r <= i,
        decreases n - i,
    {
        assert(s@.take(i as int + 1).drop_last() == s@.take(i as int));
        if s[i] == x {
            r += 1;
        }
        i += 1;
    }
    assert(s@.take(n as int) == s@);
    r
}

/// Prefixes of the similarity score never shrink.
proof fn lemma_similarity_prefix_bound(a: Seq<usize>, b: Seq<usize>, i: int, n: int)
    requires
        0 <= i <= n,
    ensures
        similarity_prefix(a, b, i) <= similarity_prefix(a, b, n),
    decreases n - i,
{
    if i < n {
        assert(a[i] * count_matches(b, a[i]) >= 0);
        lemma_similarity_prefix_bound(a, b, i + 1, n);
    }
}

/// Sum, over the left column, each number times how often it occurs in
/// the right column.
pub fn process_lists(vecs: [Vec<usize>; 2]) -> (r: usize)
    requires
        similarity(vecs[0]@, vecs[1]@) <= usize::MAX,
    ensures
        r == similarity(vecs[0]@, vecs[1]@),
{
    let a = &vecs[0];
    let b = &vecs[1];
    let n = a.len();
    let mut out: usize = 0;
    let mut i: usize = 0;
    while i < n
        invariant
            n == a@.len(),
            i <= n,
            out == similarity_prefix(a@, b@, i as int),
            similarity(a@, b@) <= usize::MAX,
        decreases n - i,
    {
        let cnt = count_occurrences(b, a[i]);
        proof {
            lemma_similarity_prefix_bound(a@, b@, i as int + 1, n as int);
        }
        out += a[i] * cnt;
        i += 1;
    }
    out
}

} // verus!
