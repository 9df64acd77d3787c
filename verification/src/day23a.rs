use vstd::prelude::*;
use vstd::string::StrSliceExecFns;

verus! {

/// One link between two named computers.
#[derive(Debug)]
pub struct Connection {
    pub nodes: [String; 2],
}

/// The whole puzzle: the links seen on the wire.
#[derive(Debug)]
pub struct Puzzle {
    pub connections: Vec<Connection>,
}

/// Some link joins `a` and `b`, in either direction.
pub open spec fn linked(cs: Seq<Connection>, a: Seq<char>, b: Seq<char>) -> bool {
    exists|i: int|
        0 <= i < cs.len() && ((#[trigger] cs[i]).nodes@[0]@ == a && cs[i].nodes@[1]@ == b || (
        cs[i].nodes@[0]@ == b && cs[i].nodes@[1]@ == a))
}

/// The name labels an endpoint of some link.
pub open spec fn appears(cs: Seq<Connection>, a: Seq<char>) -> bool {
    exists|i: int|
        0 <= i < cs.len() && ((#[trigger] cs[i]).nodes@[0]@ == a || cs[i].nodes@[1]@ == a)
}

/// Some listed name equals endpoint `side` of link `ci`.
pub open spec fn covered_name(cs: Seq<Connection>, names: Seq<Seq<char>>, ci: int, side: int) -> bool {
    exists|p: int| 0 <= p < names.len() && (#[trigger] names[p]) == cs[ci].nodes@[side]@
}

/// `names` lists every endpoint of `cs` exactly once.
pub open spec fn names_of(cs: Seq<Connection>, names: Seq<Seq<char>>) -> bool {
    &&& forall|p: int, q: int| 0 <= p < q < names.len() ==> names[p] != names[q]
    &&& forall|p: int| 0 <= p < names.len() ==> appears(cs, #[trigger] names[p])
    &&& forall|ci: int|
        0 <= ci < cs.len() ==> #[trigger] covered_name(cs, names, ci, 0) && covered_name(
            cs,
            names,
            ci,
            1,
        )
}

/// Some kept name equals endpoint `side` of link `ci`.
pub open spec fn endpoint_covered(cs: Seq<Connection>, names: Seq<String>, ci: int, side: int) -> bool {
    exists|p: int| 0 <= p < names.len() && (#[trigger] names[p])@ == cs[ci].nodes@[side]@
}

/// A longer name list covers whatever a prefix covered.
proof fn lemma_covered_grows(cs: Seq<Connection>, a: Seq<String>, b: Seq<String>, ci: int, side: int)
    requires
        endpoint_covered(cs, a, ci, side),
        a.len() <= b.len(),
        forall|p: int| 0 <= p < a.len() ==> a[p] == b[p],
    ensures
        endpoint_covered(cs, b, ci, side),
{
    let p = choose|p: int| 0 <= p < a.len() && (#[trigger] a[p])@ == cs[ci].nodes@[side]@;
    assert(b[p]@ == cs[ci].nodes@[side]@);
}

/// The name begins with the letter t.
pub open spec fn t_name(a: Seq<char>) -> bool {
    a.len() > 0 && a[0] == 't'
}

/// The triple at indices `i < j < k` of `names` is a triangle with a
/// historian's computer: pairwise linked, one name starting with t.
pub open spec fn trio_at(cs: Seq<Connection>, names: Seq<Seq<char>>, i: int, j: int, k: int) -> bool {
    &&& linked(cs, names[i], names[j])
    &&& linked(cs, names[i], names[k])
    &&& linked(cs, names[j], names[k])
    &&& (t_name(names[i]) || t_name(names[j]) || t_name(names[k]))
}

/// The qualifying trios with third member below `k`.
pub open spec fn trios_k(cs: Seq<Connection>, names: Seq<Seq<char>>, i: int, j: int, k: int) -> int
    decreases k,
{
    if k <= 0 {
        0
    } else {
        trios_k(cs, names, i, j, k - 1) + if j < k - 1 && trio_at(cs, names, i, j, k - 1) {
            1int
        } else {
            0int
        }
    }
}

/// The qualifying trios with second member below `j`.
pub open spec fn trios_j(cs: Seq<Connection>, names: Seq<Seq<char>>, i: int, j: int) -> int
    decreases j,
{
    if j <= 0 {
        0
    } else {
        trios_j(cs, names, i, j - 1) + if i < j - 1 {
            trios_k(cs, names, i, j - 1, names.len() as int)
        } else {
            0
        }
    }
}

/// The qualifying trios with first member below `i`.
pub open spec fn trios_i(cs: Seq<Connection>, names: Seq<Seq<char>>, i: int) -> int
    decreases i,
{
    if i <= 0 {
        0
    } else {
        trios_i(cs, names, i - 1) + trios_j(cs, names, i - 1, names.len() as int)
    }
}

/// Third-member prefixes never shrink, by at most one per step.
proof fn lemma_trios_k_le(cs: Seq<Connection>, names: Seq<Seq<char>>, i: int, j: int, k: int, n: int)
    requires
        0 <= k <= n,
    ensures
        trios_k(cs, names, i, j, k) <= trios_k(cs, names, i, j, n) <= trios_k(cs, names, i, j, k) + (
        n - k),
    decreases n - k,
{
    if k < n {
        lemma_trios_k_le(cs, names, i, j, k + 1, n);
    }
}

/// Second-member prefixes never shrink.
proof fn lemma_trios_j_le(cs: Seq<Connection>, names: Seq<Seq<char>>, i: int, j: int, n: int)
    requires
        0 <= j <= n,
    ensures
        trios_j(cs, names, i, j) <= trios_j(cs, names, i, n),
    decreases n - j,
{
    if j < n {
        lemma_trios_k_le(cs, names, i, j, 0, names.len() as int);
        lemma_trios_j_le(cs, names, i, j + 1, n);
    }
}

impl Puzzle {
    /// Whether the wire joins the two names.
    fn connected(&self, a: &String, b: &String) -> (r: bool)
        ensures
            r == linked(self.connections@, a@, b@),
    {
        let n = self.connections.len();
        let mut i: usize = 0;
        while i < n
            invariant
                n == self.connections@.len(),
                i <= n,
                forall|q: int|
                    0 <= q < i ==> !((#[trigger] self.connections@[q]).nodes@[0]@ == a@
                        && self.connections@[q].nodes@[1]@ == b@ || (
                    self.connections@[q].nodes@[0]@ == b@ && self.connections@[q].nodes@[1]@
                        == a@)),
            decreases n - i,
        {
            let c = &self.connections[i];
            if (c.nodes[0].eq(a) && c.nodes[1].eq(b)) || (c.nodes[0].eq(b) && c.nodes[1].eq(a)) {
                return true;
            }
            i += 1;
        }
        false
    }

    /// The distinct computer names on the wire.
    fn node_names(&self) -> (r: Vec<String>)
        ensures
            names_of(self.connections@, r@.map_values(|s: String| s@)),
            r@.len() <= 2 * self.connections@.len(),
    {
        let ghost cs = self.connections@;
        let n = self.connections.len();
        let mut names: Vec<String> = Vec::new();
        let mut i: usize = 0;
        while i < n
            invariant
                cs == self.connections@,
                n == self.connections@.len(),
                i <= n,
                names@.len() <= 2 * i,
                forall|p: int, q: int|
                    0 <= p < q < names@.len() ==> (#[trigger] names@[p])@ != (#[trigger] names@[q])@,
                forall|p: int| 0 <= p < names@.len() ==> appears(cs, (#[trigger] names@[p])@),
                forall|ci: int| 0 <= ci < i ==> #[trigger] endpoint_covered(cs, names@, ci, 0),
                forall|ci: int| 0 <= ci < i ==> #[trigger] endpoint_covered(cs, names@, ci, 1),
            decreases n - i,
        {
            let c = &self.connections[i];
            let mut side: usize = 0;
            while side < 2
                invariant
                    cs == self.connections@,
                    i < n == cs.len(),
                    c == &cs[i as int],
                    names@.len() <= 2 * i + side,
                    forall|p: int, q: int|
                        0 <= p < q < names@.len() ==> (#[trigger] names@[p])@ != (
                        #[trigger] names@[q])@,
                    forall|p: int| 0 <= p < names@.len() ==> appears(cs, (#[trigger] names@[p])@),
                    forall|ci: int| 0 <= ci < i ==> #[trigger] endpoint_covered(cs, names@, ci, 0),
                    forall|ci: int| 0 <= ci < i ==> #[trigger] endpoint_covered(cs, names@, ci, 1),
                    side <= 2,
                    side >= 1 ==> endpoint_covered(cs, names@, i as int, 0),
                    side >= 2 ==> endpoint_covered(cs, names@, i as int, 1),
                decreases 2 - side,
            {
                let ghost names0 = names@;
                let name = &c.nodes[side];
                assert(name@ == cs[i as int].nodes@[side as int]@);
                let m = names.len();
                let mut seen = false;
                let mut q: usize = 0;
                while q < m && !seen
                    invariant
                        m == names@.len(),
                        q <= m,
                        seen ==> exists|p: int| 0 <= p < m && (#[trigger] names@[p])@ == name@,
                        !seen ==> forall|p: int| 0 <= p < q ==> (#[trigger] names@[p])@ != name@,
                    decreases m - q, (if seen { 0int } else { 1int }),
                {
                    if names[q].eq(name) {
                        seen = true;
                    } else {
                        q += 1;
                    }
                }
                if !seen {
                    names.push(name.clone());
                    assert(names@.last()@ == name@);
                    assert(appears(cs, name@)) by {
                        assert(cs[i as int].nodes@[side as int]@ == name@);
                    }
                }
                proof {
                    assert(exists|p: int|
                        0 <= p < names@.len() && (#[trigger] names@[p])@ == name@);
                    assert(endpoint_covered(cs, names@, i as int, side as int));
                    assert forall|ci: int| 0 <= ci < i implies #[trigger] endpoint_covered(
                        cs,
                        names@,
                        ci,
                        0,
                    ) by {
                        lemma_covered_grows(cs, names0, names@, ci, 0);
                    }
                    assert forall|ci: int| 0 <= ci < i implies #[trigger] endpoint_covered(
                        cs,
                        names@,
                        ci,
                        1,
                    ) by {
                        lemma_covered_grows(cs, names0, names@, ci, 1);
                    }
                    if side >= 1 {
                        lemma_covered_grows(cs, names0, names@, i as int, 0);
                    }
                }
                side += 1;
            }
            proof {
                assert(endpoint_covered(cs, names@, i as int, 0));
                assert(endpoint_covered(cs, names@, i as int, 1));
            }
            i += 1;
        }
        proof {
            let nv = names@.map_values(|s: String| s@);
            assert forall|p: int, q: int| 0 <= p < q < nv.len() implies nv[p] != nv[q] by {
                assert(nv[p] == names@[p]@ && nv[q] == names@[q]@);
            }
            assert forall|p: int| 0 <= p < nv.len() implies appears(cs, #[trigger] nv[p]) by {
                assert(nv[p] == names@[p]@);
            }
            assert forall|ci: int| 0 <= ci < cs.len() implies #[trigger] covered_name(
                cs,
                nv,
                ci,
                0,
            ) && covered_name(cs, nv, ci, 1) by {
                assert(endpoint_covered(cs, names@, ci, 0));
                let p0 = choose|p: int|
                    0 <= p < names@.len() && (#[trigger] names@[p])@ == cs[ci].nodes@[0]@;
                assert(nv[p0] == cs[ci].nodes@[0]@);
                assert(endpoint_covered(cs, names@, ci, 1));
                let p1 = choose|p: int|
                    0 <= p < names@.len() && (#[trigger] names@[p])@ == cs[ci].nodes@[1]@;
                assert(nv[p1] == cs[ci].nodes@[1]@);
            }
        }
        names
    }

    /// Count the three-way links that include a computer whose name
    /// starts with t.
    pub fn process(&self) -> (r: usize)
        requires
            usize::MAX >= u64::MAX,
            self.connections@.len() <= 0x80000,
        ensures
            exists|names: Seq<Seq<char>>|
                names_of(self.connections@, names) && r == trios_i(
                    self.connections@,
                    names,
                    names.len() as int,
                ),
    {
        let names = self.node_names();
        let ghost cs = self.connections@;
        let ghost nv = names@.map_values(|s: String| s@);
        let n = names.len();
        assert(n <= 0x100000);
        let mut out: usize = 0;
        let mut i: usize = 0;
        while i < n
            invariant
                n == names@.len(),
                nv == names@.map_values(|s: String| s@),
                n <= 0x100000,
                usize::MAX >= u64::MAX,
                cs == self.connections@,
                i <= n,
                out == trios_i(cs, nv, i as int),
                out <= i * n * n,
            decreases n - i,
        {
            proof {
                lemma_trios_count_bound(cs, nv, i as int);
                assert((i + 1) * n * n <= 0x100000 * n * n) by (nonlinear_arith)
                    requires
                        i + 1 <= n <= 0x100000,
                        n >= 0,
                ;
            }
            let ghost out_i = out;
            let mut j: usize = i + 1;
            assert(trios_j(cs, nv, i as int, i as int + 1) == 0) by {
                lemma_trios_j_zero(cs, nv, i as int, i as int + 1);
            }
            while j < n
                invariant
                    n == names@.len(),
                    nv == names@.map_values(|s: String| s@),
                    n <= 0x100000,
                    usize::MAX >= u64::MAX,
                    cs == self.connections@,
                    i < n,
                    i + 1 <= j <= vstd::math::max(n as int, i + 1),
                    j <= n || j == i + 1,
                    out == out_i + trios_j(cs, nv, i as int, j as int),
                    out_i == trios_i(cs, nv, i as int),
                    out_i <= i * n * n,
                    trios_j(cs, nv, i as int, j as int) <= (j - i) * n,
                decreases n - j,
            {
                let ghost out_j = out;
                let mut k: usize = j + 1;
                assert(trios_k(cs, nv, i as int, j as int, j as int + 1) == 0) by {
                    lemma_trios_k_zero(cs, nv, i as int, j as int, j as int + 1);
                }
                while k < n
                    invariant
                        n == names@.len(),
                        nv == names@.map_values(|s: String| s@),
                        n <= 0x100000,
                        usize::MAX >= u64::MAX,
                        cs == self.connections@,
                        i < j < k || (j + 1 == k),
                        i < n,
                        j < n,
                        j + 1 <= k,
                        k <= vstd::math::max(n as int, j + 1),
                        out == out_j + trios_k(cs, nv, i as int, j as int, k as int),
                        out_j == out_i + trios_j(cs, nv, i as int, j as int),
                        out_i == trios_i(cs, nv, i as int),
                        out_i <= i * n * n,
                        trios_j(cs, nv, i as int, j as int) <= (j - i) * n,
                        trios_k(cs, nv, i as int, j as int, k as int) <= k - j,
                    decreases n - k,
                {
                    assert(nv[i as int] == names@[i as int]@);
                    assert(nv[j as int] == names@[j as int]@);
                    assert(nv[k as int] == names@[k as int]@);
                    let good = self.connected(&names[i], &names[j]) && self.connected(
                        &names[i],
                        &names[k],
                    ) && self.connected(&names[j], &names[k]) && (starts_with_t(&names[i])
                        || starts_with_t(&names[j]) || starts_with_t(&names[k]));
                    if good {
                        proof {
                            lemma_out_fits(i as int, j as int, k as int, n as int, out as int);
                        }
                        out += 1;
                    }
                    k += 1;
                }
                proof {
                    lemma_trios_k_le(cs, nv, i as int, j as int, 0, n as int);
                    assert((j - i) * n + n == (j + 1 - i) * n) by (nonlinear_arith);
                }
                j += 1;
            }
            proof {
                if i + 1 >= n {
                    lemma_trios_j_zero(cs, nv, i as int, n as int);
                    lemma_trios_j_zero(cs, nv, i as int, i as int + 1);
                }
                lemma_trios_j_bound(cs, nv, i as int, n as int);
                assert(i * n * n + n * n == (i + 1) * n * n) by (nonlinear_arith);
            }
            i += 1;
        }
        assert(out == trios_i(cs, nv, n as int));
        out
    }
}

/// Trios below `j` with first member `i` are few.
proof fn lemma_trios_count_bound(cs: Seq<Connection>, names: Seq<Seq<char>>, i: int)
    requires
        0 <= i,
    ensures
        trios_i(cs, names, i) <= i * names.len() * names.len(),
    decreases i,
{
    let n = names.len() as int;
    if i > 0 {
        lemma_trios_count_bound(cs, names, i - 1);
        lemma_trios_j_bound(cs, names, i - 1, n);
        assert((i - 1) * n * n + n * n == i * n * n) by (nonlinear_arith);
    } else {
        assert(i * n * n == 0) by (nonlinear_arith)
            requires
                i == 0,
        ;
    }
}

/// Second-member sums are bounded by a square.
proof fn lemma_trios_j_bound(cs: Seq<Connection>, names: Seq<Seq<char>>, i: int, j: int)
    requires
        0 <= j,
    ensures
        trios_j(cs, names, i, j) <= j * names.len(),
    decreases j,
{
    let n = names.len() as int;
    if j > 0 {
        lemma_trios_j_bound(cs, names, i, j - 1);
        lemma_trios_k_le(cs, names, i, j - 1, 0, n);
        assert((j - 1) * n + n == j * n) by (nonlinear_arith);
    } else {
        assert(j * n == 0) by (nonlinear_arith)
            requires
                j == 0,
        ;
    }
}

/// No trio has its second member at or before its first.
proof fn lemma_trios_j_zero(cs: Seq<Connection>, names: Seq<Seq<char>>, i: int, j: int)
    requires
        j <= i + 1,
    ensures
        trios_j(cs, names, i, j) == 0,
    decreases j,
{
    if j > 0 {
        lemma_trios_j_zero(cs, names, i, j - 1);
    }
}

/// No trio has its third member at or before its second.
proof fn lemma_trios_k_zero(cs: Seq<Connection>, names: Seq<Seq<char>>, i: int, j: int, k: int)
    requires
        k <= j + 1,
    ensures
        trios_k(cs, names, i, j, k) == 0,
    decreases k,
{
    if k > 0 {
        lemma_trios_k_zero(cs, names, i, j, k - 1);
    }
}

/// The running count stays well under the machine word.
proof fn lemma_out_fits(i: int, j: int, k: int, n: int, out: int)
    requires
        usize::MAX >= u64::MAX,
        0 <= i < n,
        i < j < n,
        j < k < n,
        n <= 0x100000,
        out <= i * n * n + (j - i) * n + (k - j),
    ensures
        out + 1 <= usize::MAX,
{
    assert(i * n * n <= 0x100000 * 0x100000 * 0x100000) by (nonlinear_arith)
        requires
            0 <= i < n <= 0x100000,
    ;
    assert((j - i) * n <= 0x100000 * 0x100000) by (nonlinear_arith)
        requires
            0 <= j - i <= n <= 0x100000,
            n >= 0,
    ;
}

/// The name begins with the letter t.
fn starts_with_t(name: &String) -> (r: bool)
    ensures
        r == t_name(name@),
{
    let s = name.as_str();
    if s.unicode_len() == 0 {
        return false;
    }
    s.get_char(0) == 't'
}

} // verus!
