use vstd::prelude::*;

verus! {

/// A decimal digit byte.
pub open spec fn is_digit(b: u8) -> bool {
    0x30 <= b <= 0x39
}

/// The numeric value of a digit byte.
pub open spec fn digit_val(b: u8) -> nat
    recommends
        is_digit(b),
{
    (b - 0x30) as nat
}

/// The number a string of digit bytes denotes, most significant digit
/// first.
pub open spec fn digits_val(s: Seq<u8>) -> nat
    decreases s.len(),
{
    if s.len() == 0 {
        0
    } else {
        digits_val(s.drop_last()) * 10 + digit_val(s.last())
    }
}

/// Every byte is a digit and there is at least one.
pub open spec fn all_digits(s: Seq<u8>) -> bool {
    s.len() > 0 && (forall|i: int| 0 <= i < s.len() ==> is_digit(s[i]))
}

/// Every byte is plain ASCII.
pub open spec fn is_ascii_bytes(s: Seq<u8>) -> bool {
    forall|i: int| 0 <= i < s.len() ==> (#[trigger] s[i]) < 0x80
}

/// An ASCII whitespace byte: space, tab, carriage return or newline.
pub open spec fn is_space(b: u8) -> bool {
    b == 0x20 || b == 0x09 || b == 0x0d || b == 0x0a
}

/// `s` split at every occurrence of `sep`: the segments between
/// separators, in order, separators dropped.  The empty string gives one
/// empty segment.
pub open spec fn split_on(s: Seq<u8>, sep: u8) -> Seq<Seq<u8>>
    decreases s.len(),
{
    if s.len() == 0 {
        seq![Seq::<u8>::empty()]
    } else {
        let rest = split_on(s.drop_last(), sep);
        if s.last() == sep {
            rest.push(Seq::<u8>::empty())
        } else {
            rest.update(rest.len() - 1, rest.last().push(s.last()))
        }
    }
}

/// `s` without one trailing carriage return.
pub open spec fn strip_cr(s: Seq<u8>) -> Seq<u8> {
    if s.len() > 0 && s.last() == 0x0d {
        s.drop_last()
    } else {
        s
    }
}

/// The lines of `s`: segments between newline bytes, one trailing newline
/// tolerated and one carriage return stripped from each line's end, as
/// the line iterator of the standard library reads them.
pub open spec fn lines_of(s: Seq<u8>) -> Seq<Seq<u8>> {
    if s.len() == 0 {
        Seq::<Seq<u8>>::empty()
    } else if s.last() == 0x0a {
        split_on(s.drop_last(), 0x0a).map_values(|l: Seq<u8>| strip_cr(l))
    } else {
        split_on(s, 0x0a).map_values(|l: Seq<u8>| strip_cr(l))
    }
}

/// `s` split at every run boundary of whitespace: the segments between
/// whitespace bytes, in order.  The empty string gives one empty
/// segment.
pub open spec fn split_ws(s: Seq<u8>) -> Seq<Seq<u8>>
    decreases s.len(),
{
    if s.len() == 0 {
        seq![Seq::<u8>::empty()]
    } else {
        let rest = split_ws(s.drop_last());
        if is_space(s.last()) {
            rest.push(Seq::<u8>::empty())
        } else {
            rest.update(rest.len() - 1, rest.last().push(s.last()))
        }
    }
}

/// `s` without leading whitespace.
pub open spec fn trim_front(s: Seq<u8>) -> Seq<u8>
    decreases s.len(),
{
    if s.len() > 0 && is_space(s.first()) {
        trim_front(s.drop_first())
    } else {
        s
    }
}

/// `s` without trailing whitespace.
pub open spec fn trim_back(s: Seq<u8>) -> Seq<u8>
    decreases s.len(),
{
    if s.len() > 0 && is_space(s.last()) {
        trim_back(s.drop_last())
    } else {
        s
    }
}

/// `s` without leading or trailing whitespace.
pub open spec fn trimmed(s: Seq<u8>) -> Seq<u8> {
    trim_back(trim_front(s))
}

/// The views of a sequence of byte vectors.
pub open spec fn views_of(v: Seq<Vec<u8>>) -> Seq<Seq<u8>> {
    v.map_values(|x: Vec<u8>| x@)
}

/// Split `s` at every occurrence of `sep`.
pub fn split_bytes(s: &[u8], sep: u8) -> (r: Vec<Vec<u8>>)
    ensures
        views_of(r@) == split_on(s@, sep),
{
    let mut segments: Vec<Vec<u8>> = Vec::new();
    let mut current: Vec<u8> = Vec::new();
    let n = s.len();
    let mut i: usize = 0;
    while i < n
        invariant
            n == s@.len(),
            i <= n,
            views_of(segments@).push(current@) == split_on(s@.take(i as int), sep),
        decreases n - i,
    {
        let b = s[i];
        assert(s@.take(i as int + 1).drop_last() == s@.take(i as int));
        if b == sep {
            segments.push(current);
            current = Vec::new();
        } else {
            current.push(b);
        }
        assert(views_of(segments@).push(current@) =~= split_on(s@.take(i as int + 1), sep));
        i += 1;
    }
    assert(s@.take(n as int) == s@);
    segments.push(current);
    assert(views_of(segments@) =~= split_on(s@, sep));
    segments
}

/// A split always yields at least one segment.
proof fn lemma_split_on_len(s: Seq<u8>, sep: u8)
    ensures
        split_on(s, sep).len() >= 1,
    decreases s.len(),
{
    if s.len() > 0 {
        lemma_split_on_len(s.drop_last(), sep);
    }
}

/// Take one trailing carriage return off the line.
fn pop_cr(v: &mut Vec<u8>)
    ensures
        final(v)@ == strip_cr(old(v)@),
{
    if v.len() > 0 {
        if v[v.len() - 1] == 0x0d {
            v.pop();
            assert(v@ =~= strip_cr(old(v)@));
        }
    }
}

/// The lines of `s`, a trailing newline tolerated and one carriage
/// return stripped from each line's end.
pub fn split_lines(s: &[u8]) -> (r: Vec<Vec<u8>>)
    ensures
        views_of(r@) == lines_of(s@),
{
    if s.len() == 0 {
        let r: Vec<Vec<u8>> = Vec::new();
        assert(views_of(r@) =~= lines_of(s@));
        return r;
    }
    let end = if s[s.len() - 1] == 0x0a {
        s.len() - 1
    } else {
        s.len()
    };
    let mut segments: Vec<Vec<u8>> = Vec::new();
    let mut current: Vec<u8> = Vec::new();
    let mut i: usize = 0;
    while i < end
        invariant
            end <= s@.len(),
            i <= end,
            views_of(segments@) == split_on(s@.take(i as int), 0x0a).drop_last().map_values(
                |l: Seq<u8>| strip_cr(l),
            ),
            current@ == split_on(s@.take(i as int), 0x0a).last(),
        decreases end - i,
    {
        let b = s[i];
        assert(s@.take(i as int + 1).drop_last() == s@.take(i as int));
        let ghost raw = split_on(s@.take(i as int), 0x0a);
        let ghost raw1 = split_on(s@.take(i as int + 1), 0x0a);
        if b == 0x0a {
            let ghost segs_old = segments@;
            pop_cr(&mut current);
            segments.push(current);
            current = Vec::new();
            proof {
                lemma_split_on_len(s@.take(i as int), 0x0a);
                assert(raw1 == raw.push(Seq::<u8>::empty()));
                assert(raw1.drop_last() =~= raw);
                assert(views_of(segments@) =~= views_of(segs_old).push(strip_cr(raw.last())));
                let f = |l: Seq<u8>| strip_cr(l);
                assert forall|q: int| 0 <= q < raw.len() implies views_of(segments@)[q]
                    == raw.map_values(f)[q] by {
                    if q < raw.len() - 1 {
                        assert(views_of(segments@)[q] == views_of(segs_old)[q]);
                        assert(views_of(segs_old)[q] == raw.drop_last().map_values(f)[q]);
                        assert(raw.drop_last()[q] == raw[q]);
                    }
                }
                assert(views_of(segments@) =~= raw1.drop_last().map_values(f));
            }
        } else {
            current.push(b);
            proof {
                lemma_split_on_len(s@.take(i as int), 0x0a);
                assert(raw1 == raw.update(raw.len() - 1, raw.last().push(b)));
                assert(raw1.drop_last() =~= raw.drop_last());
                assert(raw1.last() == raw.last().push(b));
            }
        }
        i += 1;
    }
    proof {
        if end < s.len() {
            assert(s@.take(end as int) == s@.drop_last());
        } else {
            assert(s@.take(end as int) == s@);
        }
    }
    let ghost segs_old = segments@;
    let ghost raw = split_on(s@.take(end as int), 0x0a);
    pop_cr(&mut current);
    segments.push(current);
    proof {
        lemma_split_on_len(s@.take(end as int), 0x0a);
        assert(views_of(segments@) =~= views_of(segs_old).push(strip_cr(raw.last())));
        let f = |l: Seq<u8>| strip_cr(l);
        assert forall|q: int| 0 <= q < raw.len() implies views_of(segments@)[q] == raw.map_values(
            f,
        )[q] by {
            if q < raw.len() - 1 {
                assert(views_of(segments@)[q] == views_of(segs_old)[q]);
                assert(views_of(segs_old)[q] == raw.drop_last().map_values(f)[q]);
                assert(raw.drop_last()[q] == raw[q]);
            }
        }
        assert(views_of(segments@) =~= raw.map_values(f));
        assert(views_of(segments@) =~= lines_of(s@));
    }
    segments
}

/// Split `s` at every whitespace byte.
pub fn split_spaces(s: &[u8]) -> (r: Vec<Vec<u8>>)
    ensures
        views_of(r@) == split_ws(s@),
{
    let mut segments: Vec<Vec<u8>> = Vec::new();
    let mut current: Vec<u8> = Vec::new();
    let n = s.len();
    let mut i: usize = 0;
    while i < n
        invariant
            n == s@.len(),
            i <= n,
            views_of(segments@).push(current@) == split_ws(s@.take(i as int)),
        decreases n - i,
    {
        let b = s[i];
        assert(s@.take(i as int + 1).drop_last() == s@.take(i as int));
        if is_space_byte(b) {
            segments.push(current);
            current = Vec::new();
        } else {
            current.push(b);
        }
        assert(views_of(segments@).push(current@) =~= split_ws(s@.take(i as int + 1)));
        i += 1;
    }
    assert(s@.take(n as int) == s@);
    segments.push(current);
    assert(views_of(segments@) =~= split_ws(s@));
    segments
}

/// The part of `s` before the first occurrence of `sep`, or all of `s`
/// when there is none.
pub open spec fn before_first(s: Seq<u8>, sep: u8) -> Seq<u8>
    decreases s.len(),
{
    if s.len() == 0 {
        s
    } else if s.first() == sep {
        Seq::<u8>::empty()
    } else {
        seq![s.first()].add(before_first(s.drop_first(), sep))
    }
}

/// The part of `s` after the first occurrence of `sep`, or nothing when
/// there is none.
pub open spec fn after_first(s: Seq<u8>, sep: u8) -> Seq<u8>
    decreases s.len(),
{
    if s.len() == 0 {
        s
    } else if s.first() == sep {
        s.drop_first()
    } else {
        after_first(s.drop_first(), sep)
    }
}

/// A decomposition at a separator-free prefix is the decomposition at the
/// first separator.
pub proof fn lemma_first_split(a: Seq<u8>, sep: u8, b: Seq<u8>)
    requires
        !a.contains(sep),
    ensures
        before_first(a + seq![sep] + b, sep) == a,
        after_first(a + seq![sep] + b, sep) == b,
    decreases a.len(),
{
    let s = a + seq![sep] + b;
    if a.len() == 0 {
        assert(s.first() == sep);
        assert(s.drop_first() =~= b);
        assert(before_first(s, sep) =~= a);
    } else {
        assert(s.first() == a.first());
        assert(a[0] != sep);
        assert(s.first() != sep);
        assert(!a.drop_first().contains(sep)) by {
            assert(forall|i: int| 0 <= i < a.drop_first().len() ==> a.drop_first()[i] == a[i + 1]);
        }
        lemma_first_split(a.drop_first(), sep, b);
        assert(s.drop_first() =~= a.drop_first() + seq![sep] + b);
        assert(before_first(s, sep) =~= seq![a.first()].add(a.drop_first()));
        assert(seq![a.first()].add(a.drop_first()) =~= a);
    }
}

/// Split `s` at the first occurrence of `sep`: the part before, which
/// holds no separator, and the part after.  Without a separator there is
/// no split.
pub fn split_once(s: &[u8], sep: u8) -> (r: Option<(Vec<u8>, Vec<u8>)>)
    ensures
        match r {
            Some(parts) => {
                &&& s@ == parts.0@ + seq![sep] + parts.1@
                &&& !parts.0@.contains(sep)
                &&& parts.0@ == before_first(s@, sep)
                &&& parts.1@ == after_first(s@, sep)
                &&& s@.contains(sep)
            },
            None => !s@.contains(sep),
        },
{
    let n = s.len();
    let mut i: usize = 0;
    while i < n
        invariant
            n == s@.len(),
            i <= n,
            forall|j: int| 0 <= j < i ==> s@[j] != sep,
        decreases n - i,
    {
        if s[i] == sep {
            let mut before: Vec<u8> = Vec::new();
            let mut j: usize = 0;
            while j < i
                invariant
                    i < n == s@.len(),
                    j <= i,
                    before@ == s@.take(j as int),
                decreases i - j,
            {
                before.push(s[j]);
                assert(before@ =~= s@.take(j as int + 1));
                j += 1;
            }
            let mut after: Vec<u8> = Vec::new();
            let mut k: usize = i + 1;
            while k < n
                invariant
                    i < n == s@.len(),
                    i + 1 <= k <= n,
                    after@ == s@.subrange(i as int + 1, k as int),
                decreases n - k,
            {
                after.push(s[k]);
                assert(after@ =~= s@.subrange(i as int + 1, k as int + 1));
                k += 1;
            }
            assert(s@ =~= before@ + seq![sep] + after@);
            assert(forall|j: int| 0 <= j < before@.len() ==> before@[j] != sep);
            assert(s@[i as int] == sep);
            proof {
                lemma_first_split(before@, sep, after@);
            }
            return Some((before, after));
        }
        i += 1;
    }
    assert(forall|j: int| 0 <= j < s@.len() ==> s@[j] != sep);
    None
}

/// Whether `b` is ASCII whitespace.
fn is_space_byte(b: u8) -> (r: bool)
    ensures
        r == is_space(b),
{
    b == 0x20 || b == 0x09 || b == 0x0d || b == 0x0a
}

/// Copy `s` without leading or trailing whitespace.
pub fn trim(s: &[u8]) -> (r: Vec<u8>)
    ensures
        r@ == trimmed(s@),
{
    let n = s.len();
    let mut start: usize = 0;
    while start < n && is_space_byte(s[start])
        invariant
            n == s@.len(),
            start <= n,
            forall|j: int| 0 <= j < start ==> is_space(s@[j]),
        decreases n - start,
    {
        start += 1;
    }
    let mut end: usize = n;
    while end > start && is_space_byte(s[end - 1])
        invariant
            n == s@.len(),
            start <= end <= n,
            forall|j: int| 0 <= j < start ==> is_space(s@[j]),
            forall|j: int| end <= j < n ==> is_space(s@[j]),
        decreases end,
    {
        end -= 1;
    }
    proof {
        lemma_trim_front_skip(s@, start as int);
        lemma_trim_back_take(s@.skip(start as int), end - start as int);
    }
    let mut r: Vec<u8> = Vec::new();
    let mut j: usize = start;
    while j < end
        invariant
            start <= j <= end <= s@.len(),
            r@ == s@.subrange(start as int, j as int),
        decreases end - j,
    {
        r.push(s[j]);
        assert(r@ =~= s@.subrange(start as int, j as int + 1));
        j += 1;
    }
    assert(r@ =~= s@.skip(start as int).take(end - start as int));
    r
}

/// Dropping a whitespace prefix is what trimming the front does.
proof fn lemma_trim_front_skip(s: Seq<u8>, i: int)
    requires
        0 <= i <= s.len(),
        forall|j: int| 0 <= j < i ==> is_space(s[j]),
        i < s.len() ==> !is_space(s[i]),
    ensures
        trim_front(s) == s.skip(i),
    decreases i,
{
    if i == 0 {
        assert(s.skip(0) == s);
    } else {
        assert(is_space(s.first()));
        lemma_trim_front_skip(s.drop_first(), i - 1);
        assert(s.drop_first().skip(i - 1) == s.skip(i));
    }
}

/// Dropping a whitespace suffix is what trimming the back does.
proof fn lemma_trim_back_take(s: Seq<u8>, e: int)
    requires
        0 <= e <= s.len(),
        forall|j: int| e <= j < s.len() ==> is_space(s[j]),
        e > 0 ==> !is_space(s[e - 1]),
    ensures
        trim_back(s) == s.take(e),
    decreases s.len() - e,
{
    if e == s.len() {
        assert(s.take(e) == s);
    } else {
        assert(is_space(s.last()));
        lemma_trim_back_take(s.drop_last(), e);
        assert(s.drop_last().take(e) == s.take(e));
    }
}

/// Parse an unsigned number written in decimal.  Succeeds exactly on a
/// nonempty all-digit string whose value fits the machine word.
pub fn parse_usize(s: &[u8]) -> (r: Option<usize>)
    ensures
        match r {
            Some(v) => all_digits(s@) && v == digits_val(s@),
            None => !all_digits(s@) || digits_val(s@) > usize::MAX,
        },
{
    let n = s.len();
    if n == 0 {
        return None;
    }
    let mut acc: usize = 0;
    let mut i: usize = 0;
    while i < n
        invariant
            n == s@.len(),
            i <= n,
            forall|j: int| 0 <= j < i ==> is_digit(s@[j]),
            acc == digits_val(s@.take(i as int)),
        decreases n - i,
    {
        let b = s[i];
        if b < 0x30 || b > 0x39 {
            return None;
        }
        let d = (b - 0x30) as usize;
        let shifted = match acc.checked_mul(10) {
            Some(x) => x,
            None => {
                proof {
                    lemma_digits_val_prefix_le(s@, i as int);
                }
                return None;
            },
        };
        let next = match shifted.checked_add(d) {
            Some(x) => x,
            None => {
                proof {
                    lemma_digits_val_prefix_le(s@, i as int);
                }
                return None;
            },
        };
        assert(s@.take(i as int + 1).drop_last() == s@.take(i as int));
        acc = next;
        i += 1;
    }
    assert(s@.take(n as int) == s@);
    Some(acc)
}

/// The value of a digit string is at least the value of any of its
/// prefixes extended by one more digit.
proof fn lemma_digits_val_prefix_le(s: Seq<u8>, i: int)
    requires
        0 <= i < s.len(),
    ensures
        digits_val(s) >= digits_val(s.take(i)) * 10 + digit_val(s[i]),
    decreases s.len() - i,
{
    if i == s.len() - 1 {
        assert(s.drop_last() == s.take(i));
        assert(s.last() == s[i]);
    } else {
        lemma_digits_val_prefix_le(s.drop_last(), i);
        assert(s.drop_last().take(i) == s.take(i));
        assert(s.drop_last()[i] == s[i]);
        assert(digits_val(s) == digits_val(s.drop_last()) * 10 + digit_val(s.last()));
    }
}

} // verus!
