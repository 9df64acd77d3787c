use vstd::prelude::*;
use vstd::string::StringSliceAdditionalSpecFns;
use crate::day02a;
use crate::day02a::{report_line_ok, report_values, safe_line};
use crate::text::lines_of;

verus! {

/// Read one report per line, each a list of levels.  Succeeds exactly
/// when every field of every line is a number.
pub fn extract(s: &str) -> (r: Option<Vec<Vec<usize>>>)
    ensures
        r is Some <==> (forall|k: int|
            0 <= k < lines_of(s.spec_bytes()).len() ==> report_line_ok(
                #[trigger] lines_of(s.spec_bytes())[k],
            )),
        r matches Some(rows) ==> {
            &&& rows@.len() == lines_of(s.spec_bytes()).len()
            &&& forall|k: int|
                0 <= k < rows@.len() ==> rows@[k]@ == report_values(
                    #[trigger] lines_of(s.spec_bytes())[k],
                )
        },
{
    day02a::extract(s)
}

/// Check one report for safety in the given direction.
pub fn process_line(a: &Vec<usize>, increasing: bool) -> (r: bool)
    ensures
        r == safe_line(a@, increasing),
{
    day02a::process_line(a.as_slice(), increasing)
}

/// The report with the level at `loc` taken out; out-of-range positions
/// take nothing out.
pub open spec fn dampened(s: Seq<usize>, loc: int) -> Seq<usize> {
    if 0 <= loc < s.len() {
        s.remove(loc)
    } else {
        s
    }
}

/// Check the report with the level at `loc` taken out, in either
/// direction.
pub fn process_line_at(a: &[usize], loc: usize) -> (r: bool)
    ensures
        r == (safe_line(dampened(a@, loc as int), true) || safe_line(
            dampened(a@, loc as int),
            false,
        )),
{
    let n = a.len();
    let mut kept: Vec<usize> = Vec::new();
    let mut i: usize = 0;
    while i < n
        invariant
            n == a@.len(),
            i <= n,
            kept@ == if i <= loc {
                a@.take(i as int)
            } else {
                a@.take(loc as int).add(a@.subrange(loc as int + 1, i as int))
            },
        decreases n - i,
    {
        if i != loc {
            kept.push(a[i]);
        }
        proof {
            if i < loc {
                assert(kept@ =~= a@.take(i as int + 1));
            } else if i == loc {
                assert(kept@ =~= a@.take(loc as int).add(
                    a@.subrange(loc as int + 1, i as int + 1),
                ));
            } else {
                assert(kept@ =~= a@.take(loc as int).add(
                    a@.subrange(loc as int + 1, i as int + 1),
                ));
            }
        }
        i += 1;
    }
    proof {
        if loc < n {
            assert(kept@ =~= dampened(a@, loc as int));
        } else {
            assert(kept@ =~= a@.take(n as int));
            assert(kept@ =~= dampened(a@, loc as int));
        }
    }
    let up = day02a::process_line(kept.as_slice(), true);
    let down = day02a::process_line(kept.as_slice(), false);
    up || down
}

/// A report that some single removal makes safe.
pub open spec fn fixable(row: Seq<usize>) -> bool {
    exists|i: int|
        0 <= i < row.len() && (safe_line(dampened(row, i), true) || safe_line(
            dampened(row, i),
            false,
        ))
}

/// How many of the first `i` reports some single removal makes safe.
pub open spec fn count_fixable_prefix(rows: Seq<Seq<usize>>, i: int) -> int
    decreases i,
{
    if i <= 0 {
        0
    } else {
        count_fixable_prefix(rows, i - 1) + if fixable(rows[i - 1]) {
            1int
        } else {
            0int
        }
    }
}

/// Count the reports that one level's removal makes safe.
pub fn process(vecs: Vec<Vec<usize>>) -> (r: usize)
    ensures
        r == count_fixable_prefix(vecs@.map_values(|v: Vec<usize>| v@), vecs@.len() as int),
{
    let ghost rows = vecs@.map_values(|v: Vec<usize>| v@);
    let n = vecs.len();
    let mut out: usize = 0;
    let mut k: usize = 0;
    while k < n
        invariant
            n == vecs@.len(),
            rows == vecs@.map_values(|v: Vec<usize>| v@),
            k <= n,
            out == count_fixable_prefix(rows, k as int),
            out <= k,
        decreases n - k,
    {
        assert(rows[k as int] == vecs@[k as int]@);
        let row = &vecs[k];
        let m = row.len();
        let mut found = false;
        let mut i: usize = 0;
        while i < m && !found
            invariant
                m == row@.len(),
                i <= m,
                found ==> fixable(row@),
                !found ==> forall|j: int|
                    0 <= j < i ==> !(safe_line(dampened(row@, j), true) || safe_line(
                        #[trigger] dampened(row@, j),
                        false,
                    )),
            decreases m - i, (if found { 0int } else { 1int }),
        {
            if process_line_at(row.as_slice(), i) {
                found = true;
            } else {
                i += 1;
            }
        }
        if found {
            out += 1;
        } else {
            assert(!fixable(row@));
        }
        k += 1;
    }
    out
}

} // verus!
