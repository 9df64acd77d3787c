use vstd::prelude::*;
use vstd::string::StringSliceAdditionalSpecFns;
use crate::text::{all_digits, digits_val, lines_of, parse_usize, split_spaces, split_ws};

verus! {

/// The nonempty segments, in order.
pub open spec fn nonempty_fields(segs: Seq<Seq<u8>>) -> Seq<Seq<u8>> {
    segs.filter(|f: Seq<u8>| f.len() > 0)
}

/// The numbers the fields denote.
pub open spec fn parsed_values(fields: Seq<Seq<u8>>) -> Seq<usize> {
    fields.map_values(|f: Seq<u8>| digits_val(f) as usize)
}

/// The whitespace-separated fields of a line, empty runs dropped.
pub open spec fn fields_of(line: Seq<u8>) -> Seq<Seq<u8>> {
    nonempty_fields(split_ws(line))
}

/// Every field of the line is a number that fits the machine word.
pub open spec fn report_line_ok(line: Seq<u8>) -> bool {
    forall|i: int|
        0 <= i < fields_of(line).len() ==> all_digits(#[trigger] fields_of(line)[i])
            && digits_val(fields_of(line)[i]) <= usize::MAX
}

/// The numbers on the line.
pub open spec fn report_values(line: Seq<u8>) -> Seq<usize> {
    parsed_values(fields_of(line))
}

/// Read one report per line, each a list of levels.  Succeeds exactly
/// when every field of every line is a number.
pub fn extract(s: &str) -> (r: Option<Vec<Vec<usize>>>)
    ensures
        r is Some <==> (forall|k: int|
            0 <= k < lines_of(s.spec_bytes()).len() ==> report_line_ok(
                #[trigger] lines_of(s.spec_bytes())[k],
            )),
        r matches Some(rows) ==> {
            &&& rows@.len() == lines_of(s.spec_bytes()).len()
            &&& forall|k: int|
                0 <= k < rows@.len() ==> rows@[k]@ == report_values(
                    #[trigger] lines_of(s.spec_bytes())[k],
                )
        },
{
    let lines = split_lines_local(s);
    let mut rows: Vec<Vec<usize>> = Vec::new();
    let n = lines.len();
    let mut k: usize = 0;
    while k < n
        invariant
            n == lines@.len(),
            crate::text::views_of(lines@) == lines_of(s.spec_bytes()),
            k <= n,
            rows@.len() == k,
            forall|j: int| 0 <= j < k ==> report_line_ok(#[trigger] lines@[j]@),
            forall|j: int| 0 <= j < k ==> rows@[j]@ == report_values(#[trigger] lines@[j]@),
        decreases n - k,
    {
        assert(lines@[k as int]@ == lines_of(s.spec_bytes())[k as int]);
        let row = match extract_line(&lines[k]) {
            Some(v) => v,
            None => {
                return None;
            },
        };
        rows.push(row);
        k += 1;
    }
    assert(forall|j: int|
        0 <= j < lines_of(s.spec_bytes()).len() ==> report_line_ok(
            #[trigger] lines_of(s.spec_bytes())[j],
        ));
    Some(rows)
}

/// The lines of the input.
fn split_lines_local(s: &str) -> (r: Vec<Vec<u8>>)
    ensures
        crate::text::views_of(r@) == lines_of(s.spec_bytes()),
{
    crate::text::split_lines(s.as_bytes())
}

/// Parse the numbers of one line.
fn extract_line(line: &Vec<u8>) -> (r: Option<Vec<usize>>)
    ensures
        r is Some <==> report_line_ok(line@),
        r matches Some(v) ==> v@ == report_values(line@),
{
    proof {
        reveal(Seq::filter);
    }
    broadcast use vstd::seq_lib::group_filter_ensures;

    let segments = split_spaces(line.as_slice());
    let mut values: Vec<usize> = Vec::new();
    let n = segments.len();
    let mut i: usize = 0;
    while i < n
        invariant
            n == segments@.len(),
            crate::text::views_of(segments@) == split_ws(line@),
            i <= n,
            forall|j: int|
                0 <= j < i && #[trigger] segments@[j]@.len() > 0 ==> all_digits(segments@[j]@)
                    && digits_val(segments@[j]@) <= usize::MAX,
            values@ == parsed_values(nonempty_fields(crate::text::views_of(segments@).take(i as int))),
        decreases n - i,
    {
        let ghost pref = crate::text::views_of(segments@).take(i as int);
        let ghost pref1 = crate::text::views_of(segments@).take(i as int + 1);
        assert(pref1.drop_last() == pref);
        assert(pref1.last() == segments@[i as int]@);
        if segments[i].len() > 0 {
            let v = match parse_usize(segments[i].as_slice()) {
                Some(v) => v,
                None => {
                    proof {
                        let segsv = crate::text::views_of(segments@);
                        assert(segsv[i as int].len() > 0);
                        assert(nonempty_fields(segsv).contains(segsv[i as int]));
                        let jj = choose|j: int|
                            0 <= j < nonempty_fields(segsv).len() && nonempty_fields(segsv)[j]
                                == segsv[i as int];
                        assert(fields_of(line@)[jj] == segsv[i as int]);
                        assert(!report_line_ok(line@));
                    }
                    return None;
                },
            };
            values.push(v);
            assert(nonempty_fields(pref1) == nonempty_fields(pref).push(segments@[i as int]@));
        } else {
            assert(nonempty_fields(pref1) == nonempty_fields(pref));
        }
        assert(values@ =~= parsed_values(nonempty_fields(pref1)));
        i += 1;
    }
    assert(crate::text::views_of(segments@).take(n as int) == crate::text::views_of(segments@));
    assert(forall|j: int|
        0 <= j < fields_of(line@).len() ==> fields_of(line@).contains(
            #[trigger] fields_of(line@)[j],
        ));
    proof {
        lemma_fields_from_segments(crate::text::views_of(segments@));
    }
    Some(values)
}

/// Every kept field comes from some segment, so checking the segments
/// checks the fields.
proof fn lemma_fields_from_segments(segs: Seq<Seq<u8>>)
    ensures
        forall|j: int|
            0 <= j < nonempty_fields(segs).len() ==> exists|k: int|
                0 <= k < segs.len() && segs[k] == #[trigger] nonempty_fields(segs)[j],
    decreases segs.len(),
{
    reveal(Seq::filter);
    let pred = |f: Seq<u8>| f.len() > 0;
    if segs.len() > 0 {
        lemma_fields_from_segments(segs.drop_last());
        assert forall|j: int| 0 <= j < nonempty_fields(segs).len() implies exists|k: int|
            0 <= k < segs.len() && segs[k] == #[trigger] nonempty_fields(segs)[j] by {
            if j < nonempty_fields(segs.drop_last()).len() {
                let k = choose|k: int|
                    0 <= k < segs.drop_last().len() && segs.drop_last()[k] == nonempty_fields(
                        segs.drop_last(),
                    )[j];
                assert(segs[k] == nonempty_fields(segs)[j]);
            } else {
                assert(segs[segs.len() - 1] == nonempty_fields(segs)[j]);
            }
        }
    }
}

/// A step in the given direction by one to three levels.
pub open spec fn step_ok(a: usize, b: usize, increasing: bool) -> bool {
    if increasing {
        a < b && b - a <= 3
    } else {
        b < a && a - b <= 3
    }
}

/// Every adjacent pair of levels steps in the given direction by one to
/// three.
pub open spec fn safe_line(s: Seq<usize>, increasing: bool) -> bool {
    forall|i: int| 0 <= i < s.len() - 1 ==> step_ok(#[trigger] s[i], s[i + 1], increasing)
}

/// Check one report for safety in the given direction.
pub fn process_line(a: &[usize], increasing: bool) -> (r: bool)
    ensures
        r == safe_line(a@, increasing),
{
    let n = a.len();
    if n == 0 {
        return true;
    }
    let mut i: usize = 1;
    while i < n
        invariant
            n == a@.len(),
            1 <= i <= n,
            forall|j: int| 0 <= j < i - 1 ==> step_ok(#[trigger] a@[j], a@[j + 1], increasing),
        decreases n - i,
    {
        let ok = if increasing {
            a[i - 1] < a[i] && a[i] - a[i - 1] <= 3
        } else {
            a[i] < a[i - 1] && a[i - 1] - a[i] <= 3
        };
        if !ok {
            return false;
        }
        i += 1;
    }
    true
}

/// How many of the first `i` reports are safe in one direction or the
/// other.
pub open spec fn count_safe_prefix(rows: Seq<Seq<usize>>, i: int) -> int
    decreases i,
{
    if i <= 0 {
        0
    } else {
        count_safe_prefix(rows, i - 1) + if safe_line(rows[i - 1], true) || safe_line(
            rows[i - 1],
            false,
        ) {
            1int
        } else {
            0int
        }
    }
}

/// Count the reports that are safe, entirely increasing or entirely
/// decreasing in steps of one to three.
pub fn process(vecs: Vec<Vec<usize>>) -> (r: usize)
    ensures
        r == count_safe_prefix(vecs@.map_values(|v: Vec<usize>| v@), vecs@.len() as int),
{
    let ghost rows = vecs@.map_values(|v: Vec<usize>| v@);
    let n = vecs.len();
    let mut out: usize = 0;
    let mut i: usize = 0;
    while i < n
        invariant
            n == vecs@.len(),
            rows == vecs@.map_values(|v: Vec<usize>| v@),
            i <= n,
            out == count_safe_prefix(rows, i as int),
            out <= i,
        decreases n - i,
    {
        assert(rows[i as int] == vecs@[i as int]@);
        let ok = process_line(vecs[i].as_slice(), true) || process_line(
            vecs[i].as_slice(),
            false,
        );
        if ok {
            out += 1;
        }
        i += 1;
    }
    out
}

} // verus!
