use vstd::prelude::*;
use vstd::string::StringSliceAdditionalSpecFns;
use vstd::seq_lib::lemma_sorted_unique;
use vstd::relations::{sorted_by, total_ordering};
use crate::text::{
    after_first, all_digits, before_first, digits_val, lines_of, parse_usize, split_lines,
    split_once, trim, trimmed,
};

verus! {

/// A line holds two location numbers: digits, one space, then digits,
/// trailing whitespace tolerated, each fitting 32 bits.
pub open spec fn pair_line_ok(line: Seq<u8>) -> bool {
    &&& line.contains(0x20)
    &&& all_digits(before_first(line, 0x20))
    &&& digits_val(before_first(line, 0x20)) <= u32::MAX
    &&& all_digits(trimmed(after_first(line, 0x20)))
    &&& digits_val(trimmed(after_first(line, 0x20))) <= u32::MAX
}

/// The left number on a line.
pub open spec fn left_of(line: Seq<u8>) -> nat {
    digits_val(before_first(line, 0x20))
}

/// The right number on a line.
pub open spec fn right_of(line: Seq<u8>) -> nat {
    digits_val(trimmed(after_first(line, 0x20)))
}

/// Read the two columns of location numbers.  Succeeds exactly when
/// every line holds a pair.
pub fn extract_lists(s: &str) -> (r: Option<[Vec<u32>; 2]>)
    ensures
        r is Some <==> (forall|k: int|
            0 <= k < lines_of(s.spec_bytes()).len() ==> pair_line_ok(
                #[trigger] lines_of(s.spec_bytes())[k],
            )),
        r matches Some(ls) ==> {
            &&& ls@[0]@.len() == lines_of(s.spec_bytes()).len()
            &&& ls@[1]@.len() == lines_of(s.spec_bytes()).len()
            &&& forall|k: int|
                0 <= k < lines_of(s.spec_bytes()).len() ==> ls@[0]@[k] == left_of(
                    #[trigger] lines_of(s.spec_bytes())[k],
                ) && ls@[1]@[k] == right_of(lines_of(s.spec_bytes())[k])
        },
{
    let lines = split_lines(s.as_bytes());
    let mut lefts: Vec<u32> = Vec::new();
    let mut rights: Vec<u32> = Vec::new();
    let n = lines.len();
    let mut k: usize = 0;
    while k < n
        invariant
            n == lines@.len(),
            crate::text::views_of(lines@) == lines_of(s.spec_bytes()),
            k <= n,
            lefts@.len() == k,
            rights@.len() == k,
            forall|j: int| 0 <= j < k ==> pair_line_ok(#[trigger] lines@[j]@),
            forall|j: int|
                0 <= j < k ==> lefts@[j] == left_of(#[trigger] lines@[j]@) && rights@[j]
                    == right_of(lines@[j]@),
        decreases n - k,
    {
        assert(lines@[k as int]@ == lines_of(s.spec_bytes())[k as int]);
        let parts = match split_once(lines[k].as_slice(), 0x20) {
            Some(p) => p,
            None => {
                return None;
            },
        };
        let a = match parse_usize(parts.0.as_slice()) {
            Some(v) => v,
            None => {
                return None;
            },
        };
        if a > u32::MAX as usize {
            return None;
        }
        let bt = trim(parts.1.as_slice());
        let b = match parse_usize(bt.as_slice()) {
            Some(v) => v,
            None => {
                return None;
            },
        };
        if b > u32::MAX as usize {
            return None;
        }
        lefts.push(a as u32);
        rights.push(b as u32);
        k += 1;
    }
    assert(forall|j: int|
        0 <= j < lines_of(s.spec_bytes()).len() ==> pair_line_ok(
            #[trigger] lines_of(s.spec_bytes())[j],
        ));
    Some([lefts, rights])
}

/// The sequence sorted into nondecreasing order.
pub open spec fn sorted_u32s(s: Seq<u32>) -> Seq<u32> {
    s.sort_by(|x: u32, y: u32| x <= y)
}

/// Sort a list of numbers into nondecreasing order by insertion.
fn sort_u32(v: &Vec<u32>) -> (r: Vec<u32>)
    ensures
        r@ == sorted_u32s(v@),
{
    broadcast use vstd::seq_lib::group_to_multiset_ensures;

    let ghost leq = |x: u32, y: u32| x <= y;
    let mut out: Vec<u32> = Vec::new();
    let n = v.len();
    let mut i: usize = 0;
    while i < n
        invariant
            n == v@.len(),
            i <= n,
            out@.len() == i,
            out@.to_multiset() == v@.take(i as int).to_multiset(),
            sorted_by(out@, leq),
        decreases n - i,
    {
        let x = v[i];
        let m = out.len();
        let mut pos: usize = 0;
        while pos < m && out[pos] <= x
            invariant
                m == out@.len(),
                pos <= m,
                forall|j: int| 0 <= j < pos ==> out@[j] <= x,
            decreases m - pos,
        {
            pos += 1;
        }
        assert(forall|j: int| pos <= j < out@.len() ==> x <= out@[j]) by {
            assert(pos < out@.len() ==> !(out@[pos as int] <= x));
            assert(forall|j: int|
                pos < j < out@.len() ==> leq(out@[pos as int], out@[j]));
        }
        let ghost prev = out@;
        out.insert(pos, x);
        proof {
            assert(out@ == prev.insert(pos as int, x));
            assert(out@.to_multiset() == prev.to_multiset().insert(x));
            assert(v@.take(i as int + 1).drop_last() == v@.take(i as int));
            assert(v@.take(i as int + 1) == v@.take(i as int).push(x));
            assert(sorted_by(out@, leq)) by {
                assert(forall|j: int, k: int|
                    0 <= j < k < out@.len() ==> leq(out@[j], out@[k])) by {
                    assert(forall|j: int|
                        0 <= j < out@.len() ==> out@[j] == if j < pos {
                            prev[j]
                        } else if j == pos {
                            x
                        } else {
                            prev[j - 1]
                        });
                }
            }
        }
        i += 1;
    }
    proof {
        assert(v@.take(n as int) == v@);
        v@.lemma_sort_by_ensures(leq);
        assert(total_ordering(leq));
        lemma_sorted_unique(out@, v@.sort_by(leq), leq);
    }
    out
}

/// The sum of the pairwise distances of the first `i` entries.
pub open spec fn distance_prefix(a: Seq<u32>, b: Seq<u32>, i: int) -> int
    decreases i,
{
    if i <= 0 {
        0
    } else {
        distance_prefix(a, b, i - 1) + if a[i - 1] >= b[i - 1] {
            a[i - 1] - b[i - 1]
        } else {
            b[i - 1] - a[i - 1]
        }
    }
}

/// The total distance between two lists of location numbers: sort each,
/// then sum the absolute differences of the pairs, shorter list deciding.
pub open spec fn total_distance(a: Seq<u32>, b: Seq<u32>) -> int {
    let sa = sorted_u32s(a);
    let sb = sorted_u32s(b);
    distance_prefix(sa, sb, if sa.len() <= sb.len() {
        sa.len() as int
    } else {
        sb.len() as int
    })
}

/// Sum the distances between the two columns, each taken in sorted
/// order.
pub fn process_lists(vecs: [Vec<u32>; 2]) -> (r: u32)
    requires
        total_distance(vecs[0]@, vecs[1]@) <= u32::MAX,
    ensures
        r == total_distance(vecs[0]@, vecs[1]@),
{
    let a = &vecs[0];
    let b = &vecs[1];
    let sa = sort_u32(a);
    let sb = sort_u32(b);
    let n = if sa.len() <= sb.len() {
        sa.len()
    } else {
        sb.len()
    };
    let mut diff: u32 = 0;
    let mut i: usize = 0;
    while i < n
        invariant
            sa@ == sorted_u32s(a@),
            sb@ == sorted_u32s(b@),
            n == if sa@.len() <= sb@.len() {
                sa@.len() as int
            } else {
                sb@.len() as int
            },
            i <= n,
            diff == distance_prefix(sa@, sb@, i as int),
            distance_prefix(sa@, sb@, n as int) <= u32::MAX,
            total_distance(a@, b@) == distance_prefix(sa@, sb@, n as int),
        decreases n - i,
    {
        proof {
            lemma_distance_prefix_bound(sa@, sb@, i as int + 1, n as int);
        }
        let x = sa[i];
        let y = sb[i];
        if x >= y {
            diff += x - y;
        } else {
            diff += y - x;
        }
        i += 1;
    }
    diff
}

/// Distance sums over prefixes never shrink as the prefix grows.
proof fn lemma_distance_prefix_bound(a: Seq<u32>, b: Seq<u32>, i: int, n: int)
    requires
        0 <= i <= n,
    ensures
        distance_prefix(a, b, i) <= distance_prefix(a, b, n),
    decreases n - i,
{
    if i < n {
        lemma_distance_prefix_bound(a, b, i + 1, n);
    }
}

} // verus!
