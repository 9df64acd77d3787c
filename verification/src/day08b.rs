use vstd::prelude::*;

verus! {

/// The grid point `h` resonance steps beyond `p` along the line from
/// `p` through `q`.
pub open spec fn node(p: [usize; 2], q: [usize; 2], h: int) -> (int, int) {
    (p@[0] + h * (q@[0] - p@[0]), p@[1] + h * (q@[1] - p@[1]))
}

/// `(a, b)` is an antinode: it lies on the line through two distinct
/// antennas of one frequency, a whole number of their spacings past the
/// first, and on the map.
pub open spec fn is_antinode(
    shape: [usize; 2],
    groups: Seq<Seq<[usize; 2]>>,
    a: int,
    b: int,
) -> bool {
    exists|gi: int, u: int, v: int, h: int|
        {
            &&& 0 <= gi < groups.len()
            &&& 0 <= u < groups[gi].len()
            &&& 0 <= v < groups[gi].len()
            &&& groups[gi][u] != groups[gi][v]
            &&& h >= 1
            &&& #[trigger] node(groups[gi][u], groups[gi][v], h) == (a, b)
            &&& 0 <= a < shape@[0]
            &&& 0 <= b < shape@[1]
        }
}

/// The position `(a, b)` stands in the list.
pub open spec fn listed_pos(v: Seq<[usize; 2]>, a: int, b: int) -> bool {
    exists|q: int| 0 <= q < v.len() && (#[trigger] v[q])@[0] == a && v[q]@[1] == b
}

/// The map size, and the antennas gathered by frequency: each inner
/// list holds the positions sharing one frequency.
#[derive(Debug)]
pub struct Puzzle {
    pub shape: [usize; 2],
    pub antennas: Vec<Vec<[usize; 2]>>,
}

/// Put a position into the list unless it already stands there.
fn insert_node(nodes: &mut Vec<[usize; 2]>, p: [usize; 2])
    ensures
        forall|a: int, b: int|
            #[trigger] listed_pos(final(nodes)@, a, b) ==> listed_pos(old(nodes)@, a, b) || (a
                == p@[0] && b == p@[1]),
        forall|a: int, b: int|
            #[trigger] listed_pos(old(nodes)@, a, b) ==> listed_pos(final(nodes)@, a, b),
        listed_pos(final(nodes)@, p@[0] as int, p@[1] as int),
{
    let n = nodes.len();
    let mut q: usize = 0;
    while q < n
        invariant
            n == nodes@.len(),
            q <= n,
            forall|w: int|
                0 <= w < q ==> !((#[trigger] nodes@[w])@[0] == p@[0] && nodes@[w]@[1] == p@[1]),
        decreases n - q,
    {
        if nodes[q][0] == p[0] && nodes[q][1] == p[1] {
            assert(listed_pos(nodes@, p@[0] as int, p@[1] as int)) by {
                assert(nodes@[q as int]@[0] == p@[0] && nodes@[q as int]@[1] == p@[1]);
            }
            return ;
        }
        q += 1;
    }
    let ghost before = nodes@;
    nodes.push(p);
    proof {
        assert(nodes@[nodes@.len() - 1] == p);
        assert(forall|w: int| 0 <= w < before.len() ==> nodes@[w] == before[w]);
        assert(listed_pos(nodes@, p@[0] as int, p@[1] as int)) by {
            assert(nodes@[nodes@.len() - 1]@[0] == p@[0] && nodes@[nodes@.len() - 1]@[1] == p@[1]);
        }
        assert forall|a: int, b: int| #[trigger] listed_pos(nodes@, a, b) implies listed_pos(
            before,
            a,
            b,
        ) || (a == p@[0] && b == p@[1]) by {
            let w = choose|w: int|
                0 <= w < nodes@.len() && (#[trigger] nodes@[w])@[0] == a && nodes@[w]@[1] == b;
            if w < before.len() {
                assert(before[w]@[0] == a && before[w]@[1] == b);
                assert(listed_pos(before, a, b));
            }
        }
        assert forall|a: int, b: int| #[trigger] listed_pos(before, a, b) implies listed_pos(
            nodes@,
            a,
            b,
        ) by {
            let w = choose|w: int|
                0 <= w < before.len() && (#[trigger] before[w])@[0] == a && before[w]@[1] == b;
            assert(nodes@[w]@[0] == a && nodes@[w]@[1] == b);
        }
    }
}

/// Whether `(a, b)` stands in the list.
fn has_pos(v: &Vec<[usize; 2]>, a: usize, b: usize) -> (r: bool)
    ensures
        r == listed_pos(v@, a as int, b as int),
{
    let n = v.len();
    let mut q: usize = 0;
    while q < n
        invariant
            n == v@.len(),
            q <= n,
            forall|w: int| 0 <= w < q ==> !((#[trigger] v@[w])@[0] == a && v@[w]@[1] == b),
        decreases n - q,
    {
        if v[q][0] == a && v[q][1] == b {
            assert(v@[q as int]@[0] == a && v@[q as int]@[1] == b);
            return true;
        }
        q += 1;
    }
    assert forall|w: int| 0 <= w < v@.len() implies !((#[trigger] v@[w])@[0] == a && v@[w]@[1]
        == b) by {}
    false
}

/// Beyond the map's edge in a fixed direction, the line never comes
/// back.
proof fn lemma_line_stays_out(shape: [usize; 2], p: [usize; 2], q: [usize; 2], h0: int, h: int)
    requires
        p@[0] < shape@[0] && p@[1] < shape@[1],
        h0 >= 1,
        h >= h0,
        !(0 <= node(p, q, h0).0 < shape@[0] && 0 <= node(p, q, h0).1 < shape@[1]),
    ensures
        !(0 <= node(p, q, h).0 < shape@[0] && 0 <= node(p, q, h).1 < shape@[1]),
{
    let d0 = q@[0] - p@[0];
    let d1 = q@[1] - p@[1];
    if node(p, q, h0).0 < 0 {
        assert(d0 < 0) by (nonlinear_arith)
            requires
                p@[0] + h0 * d0 < 0,
                p@[0] >= 0,
                h0 >= 1,
        ;
        assert(h * d0 <= h0 * d0) by (nonlinear_arith)
            requires
                h >= h0,
                d0 < 0,
        ;
    } else if node(p, q, h0).0 >= shape@[0] {
        assert(d0 > 0) by (nonlinear_arith)
            requires
                p@[0] + h0 * d0 >= shape@[0],
                p@[0] < shape@[0],
                h0 >= 1,
        ;
        assert(h * d0 >= h0 * d0) by (nonlinear_arith)
            requires
                h >= h0,
                d0 > 0,
        ;
    } else if node(p, q, h0).1 < 0 {
        assert(d1 < 0) by (nonlinear_arith)
            requires
                p@[1] + h0 * d1 < 0,
                p@[1] >= 0,
                h0 >= 1,
        ;
        assert(h * d1 <= h0 * d1) by (nonlinear_arith)
            requires
                h >= h0,
                d1 < 0,
        ;
    } else {
        assert(d1 > 0) by (nonlinear_arith)
            requires
                p@[1] + h0 * d1 >= shape@[1],
                p@[1] < shape@[1],
                h0 >= 1,
        ;
        assert(h * d1 >= h0 * d1) by (nonlinear_arith)
            requires
                h >= h0,
                d1 > 0,
        ;
    }
}

/// The antinodes on the map in row `a` left of column `bmax`.
pub open spec fn anti_row(
    shape: [usize; 2],
    groups: Seq<Seq<[usize; 2]>>,
    a: int,
    bmax: int,
) -> int
    decreases bmax,
{
    if bmax <= 0 {
        0
    } else {
        anti_row(shape, groups, a, bmax - 1) + if is_antinode(shape, groups, a, bmax - 1) {
            1int
        } else {
            0int
        }
    }
}

/// The antinodes on the map above row `amax`.
pub open spec fn anti_total(shape: [usize; 2], groups: Seq<Seq<[usize; 2]>>, amax: int) -> int
    decreases amax,
{
    if amax <= 0 {
        0
    } else {
        anti_total(shape, groups, amax - 1) + anti_row(shape, groups, amax - 1, shape@[1] as int)
    }
}

/// Row counts grow by at most one per cell and never shrink.
proof fn lemma_anti_row_bounds(
    shape: [usize; 2],
    groups: Seq<Seq<[usize; 2]>>,
    a: int,
    b1: int,
    b2: int,
)
    requires
        0 <= b1 <= b2,
    ensures
        anti_row(shape, groups, a, b1) <= anti_row(shape, groups, a, b2) <= anti_row(
            shape,
            groups,
            a,
            b1,
        ) + (b2 - b1),
    decreases b2 - b1,
{
    if b1 < b2 {
        lemma_anti_row_bounds(shape, groups, a, b1, b2 - 1);
    }
}

/// Totals never shrink.
proof fn lemma_anti_total_le(shape: [usize; 2], groups: Seq<Seq<[usize; 2]>>, i1: int, i2: int)
    requires
        0 <= i1 <= i2,
    ensures
        anti_total(shape, groups, i1) <= anti_total(shape, groups, i2),
    decreases i2 - i1,
{
    if i1 < i2 {
        lemma_anti_row_bounds(shape, groups, i2 - 1, 0, shape@[1] as int);
        lemma_anti_total_le(shape, groups, i1, i2 - 1);
    }
}

impl Puzzle {
    /// Every antenna stands on the map.
    pub open spec fn antennas_on_map(self) -> bool {
        forall|gi: int, u: int|
            0 <= gi < self.antennas@.len() && 0 <= u < self.antennas@[gi]@.len() ==> (
            #[trigger] self.antennas@[gi]@[u])@[0] < self.shape@[0] && self.antennas@[gi]@[u]@[1]
                < self.shape@[1]
    }

    /// The antenna groups as mathematical sequences.
    pub open spec fn groups(self) -> Seq<Seq<[usize; 2]>> {
        self.antennas@.map_values(|v: Vec<[usize; 2]>| v@)
    }

    /// Count the map points where antinodes of any frequency fall.
    pub fn process(&mut self) -> (r: usize)
        requires
            usize::MAX >= u64::MAX,
            old(self).shape@[0] <= 0x10000000,
            old(self).shape@[1] <= 0x10000000,
            old(self).antennas_on_map(),
        ensures
            *final(self) == *old(self),
            r == anti_total(old(self).shape, old(self).groups(), old(self).shape@[0] as int),
    {
        let ghost shape = self.shape;
        let ghost groups = self.groups();
        let mut nodes: Vec<[usize; 2]> = Vec::new();
        let ng = self.antennas.len();
        let mut gi: usize = 0;
        while gi < ng
            invariant
                shape == self.shape,
                groups == self.groups(),
                self == old(self),
                usize::MAX >= u64::MAX,
                self.shape@[0] <= 0x10000000,
                self.shape@[1] <= 0x10000000,
                self.antennas_on_map(),
                ng == groups.len(),
                gi <= ng,
                forall|a: int, b: int|
                    #[trigger] listed_pos(nodes@, a, b) ==> is_antinode(shape, groups, a, b),
                forall|g2: int, u: int, v: int, h: int|
                    {
                        (0 <= g2 < gi && 0 <= u < groups[g2].len() && 0 <= v < groups[g2].len()
                            && groups[g2][u] != groups[g2][v] && h >= 1 && 0 <= (#[trigger] node(
                            groups[g2][u],
                            groups[g2][v],
                            h,
                        )).0 < shape@[0] && 0 <= node(groups[g2][u], groups[g2][v], h).1
                            < shape@[1]) ==> listed_pos(
                            nodes@,
                            node(groups[g2][u], groups[g2][v], h).0,
                            node(groups[g2][u], groups[g2][v], h).1,
                        )
                    },
            decreases ng - gi,
        {
            let group = &self.antennas[gi];
            let m = group.len();
            let mut u: usize = 0;
            while u < m
                invariant
                    shape == self.shape,
                    groups == self.groups(),
                    self == old(self),
                    usize::MAX >= u64::MAX,
                    self.shape@[0] <= 0x10000000,
                    self.shape@[1] <= 0x10000000,
                    self.antennas_on_map(),
                    ng == groups.len(),
                    gi < ng,
                    group == &self.antennas@[gi as int],
                    m == groups[gi as int].len(),
                    u <= m,
                    forall|a: int, b: int|
                        #[trigger] listed_pos(nodes@, a, b) ==> is_antinode(shape, groups, a, b),
                    forall|g2: int, uu: int, v: int, h: int|
                        {
                            (0 <= g2 < gi && 0 <= uu < groups[g2].len() && 0 <= v
                                < groups[g2].len() && groups[g2][uu] != groups[g2][v] && h >= 1
                                && 0 <= (#[trigger] node(groups[g2][uu], groups[g2][v], h)).0
                                < shape@[0] && 0 <= node(groups[g2][uu], groups[g2][v], h).1
                                < shape@[1]) ==> listed_pos(
                                nodes@,
                                node(groups[g2][uu], groups[g2][v], h).0,
                                node(groups[g2][uu], groups[g2][v], h).1,
                            )
                        },
                    forall|uu: int, v: int, h: int|
                        {
                            (0 <= uu < u && 0 <= v < groups[gi as int].len()
                                && groups[gi as int][uu] != groups[gi as int][v] && h >= 1 && 0 <= (
                            #[trigger] node(groups[gi as int][uu], groups[gi as int][v], h)).0
                                < shape@[0] && 0 <= node(
                                groups[gi as int][uu],
                                groups[gi as int][v],
                                h,
                            ).1 < shape@[1]) ==> listed_pos(
                                nodes@,
                                node(groups[gi as int][uu], groups[gi as int][v], h).0,
                                node(groups[gi as int][uu], groups[gi as int][v], h).1,
                            )
                        },
                decreases m - u,
            {
                let mut v: usize = 0;
                while v < m
                    invariant
                        shape == self.shape,
                        groups == self.groups(),
                        self == old(self),
                        usize::MAX >= u64::MAX,
                        self.shape@[0] <= 0x10000000,
                        self.shape@[1] <= 0x10000000,
                        self.antennas_on_map(),
                        ng == groups.len(),
                        gi < ng,
                        group == &self.antennas@[gi as int],
                        m == groups[gi as int].len(),
                        u < m,
                        v <= m,
                        forall|a: int, b: int|
                            #[trigger] listed_pos(nodes@, a, b) ==> is_antinode(
                                shape,
                                groups,
                                a,
                                b,
                            ),
                        forall|g2: int, uu: int, vv: int, h: int|
                            {
                                (0 <= g2 < gi && 0 <= uu < groups[g2].len() && 0 <= vv
                                    < groups[g2].len() && groups[g2][uu] != groups[g2][vv] && h
                                    >= 1 && 0 <= (#[trigger] node(
                                    groups[g2][uu],
                                    groups[g2][vv],
                                    h,
                                )).0 < shape@[0] && 0 <= node(groups[g2][uu], groups[g2][vv], h).1
                                    < shape@[1]) ==> listed_pos(
                                    nodes@,
                                    node(groups[g2][uu], groups[g2][vv], h).0,
                                    node(groups[g2][uu], groups[g2][vv], h).1,
                                )
                            },
                        forall|uu: int, vv: int, h: int|
                            {
                                (0 <= uu < u && 0 <= vv < groups[gi as int].len()
                                    && groups[gi as int][uu] != groups[gi as int][vv] && h >= 1
                                    && 0 <= (#[trigger] node(
                                    groups[gi as int][uu],
                                    groups[gi as int][vv],
                                    h,
                                )).0 < shape@[0] && 0 <= node(
                                    groups[gi as int][uu],
                                    groups[gi as int][vv],
                                    h,
                                ).1 < shape@[1]) ==> listed_pos(
                                    nodes@,
                                    node(groups[gi as int][uu], groups[gi as int][vv], h).0,
                                    node(groups[gi as int][uu], groups[gi as int][vv], h).1,
                                )
                            },
                        forall|vv: int, h: int|
                            {
                                (0 <= vv < v && groups[gi as int][u as int]
                                    != groups[gi as int][vv] && h >= 1 && 0 <= (#[trigger] node(
                                    groups[gi as int][u as int],
                                    groups[gi as int][vv],
                                    h,
                                )).0 < shape@[0] && 0 <= node(
                                    groups[gi as int][u as int],
                                    groups[gi as int][vv],
                                    h,
                                ).1 < shape@[1]) ==> listed_pos(
                                    nodes@,
                                    node(groups[gi as int][u as int], groups[gi as int][vv], h).0,
                                    node(groups[gi as int][u as int], groups[gi as int][vv], h).1,
                                )
                            },
                    decreases m - v,
                {
                    let start = group[u];
                    let end = group[v];
                    assert(start == groups[gi as int][u as int] && end == groups[gi as int][
                    v as int]);
                    if !(start[0] == end[0] && start[1] == end[1]) {
                        assert(groups[gi as int][u as int] != groups[gi as int][v as int]) by {
                            if groups[gi as int][u as int] == groups[gi as int][v as int] {
                                assert(start@[0] == end@[0] && start@[1] == end@[1]);
                            }
                        }
                        let sx = start[0] as i64;
                        let sy = start[1] as i64;
                        let dx = end[0] as i64 - sx;
                        let dy = end[1] as i64 - sy;
                        let mut cx = sx;
                        let mut cy = sy;
                        let mut h: u64 = 0;
                        let mut done = false;
                        let ghost p = groups[gi as int][u as int];
                        let ghost q = groups[gi as int][v as int];
                        while !done
                            invariant
                                forall|g2: int, uu: int, vv: int, h2: int|
                                    {
                                        (0 <= g2 < gi && 0 <= uu < groups[g2].len() && 0 <= vv
                                            < groups[g2].len() && groups[g2][uu]
                                            != groups[g2][vv] && h2 >= 1 && 0 <= (#[trigger] node(
                                            groups[g2][uu],
                                            groups[g2][vv],
                                            h2,
                                        )).0 < shape@[0] && 0 <= node(
                                            groups[g2][uu],
                                            groups[g2][vv],
                                            h2,
                                        ).1 < shape@[1]) ==> listed_pos(
                                            nodes@,
                                            node(groups[g2][uu], groups[g2][vv], h2).0,
                                            node(groups[g2][uu], groups[g2][vv], h2).1,
                                        )
                                    },
                                forall|uu: int, vv: int, h2: int|
                                    {
                                        (0 <= uu < u && 0 <= vv < groups[gi as int].len()
                                            && groups[gi as int][uu] != groups[gi as int][vv]
                                            && h2 >= 1 && 0 <= (#[trigger] node(
                                            groups[gi as int][uu],
                                            groups[gi as int][vv],
                                            h2,
                                        )).0 < shape@[0] && 0 <= node(
                                            groups[gi as int][uu],
                                            groups[gi as int][vv],
                                            h2,
                                        ).1 < shape@[1]) ==> listed_pos(
                                            nodes@,
                                            node(groups[gi as int][uu], groups[gi as int][vv], h2).0,
                                            node(groups[gi as int][uu], groups[gi as int][vv], h2).1,
                                        )
                                    },
                                forall|vv: int, h2: int|
                                    {
                                        (0 <= vv < v && groups[gi as int][u as int]
                                            != groups[gi as int][vv] && h2 >= 1 && 0 <= (
                                        #[trigger] node(
                                            groups[gi as int][u as int],
                                            groups[gi as int][vv],
                                            h2,
                                        )).0 < shape@[0] && 0 <= node(
                                            groups[gi as int][u as int],
                                            groups[gi as int][vv],
                                            h2,
                                        ).1 < shape@[1]) ==> listed_pos(
                                            nodes@,
                                            node(groups[gi as int][u as int], groups[gi as int][
                                            vv], h2).0,
                                            node(groups[gi as int][u as int], groups[gi as int][
                                            vv], h2).1,
                                        )
                                    },
                                v < m,
                                usize::MAX >= u64::MAX,
                                shape == self.shape,
                                groups == self.groups(),
                                self.shape@[0] <= 0x10000000,
                                self.shape@[1] <= 0x10000000,
                                p == groups[gi as int][u as int],
                                q == groups[gi as int][v as int],
                                gi < groups.len(),
                                u < groups[gi as int].len(),
                                v < groups[gi as int].len(),
                                p != q,
                                p@[0] < shape@[0] && p@[1] < shape@[1],
                                dx == q@[0] - p@[0],
                                dy == q@[1] - p@[1],
                                cx == p@[0] + h * dx,
                                cy == p@[1] + h * dy,
                                0 <= cx < shape@[0],
                                0 <= cy < shape@[1],
                                h < 0x40000000,
                                forall|a: int, b: int|
                                    #[trigger] listed_pos(nodes@, a, b) ==> is_antinode(
                                        shape,
                                        groups,
                                        a,
                                        b,
                                    ),
                                forall|h2: int|
                                    {
                                        (1 <= h2 <= h && 0 <= (#[trigger] node(p, q, h2)).0
                                            < shape@[0] && 0 <= node(p, q, h2).1 < shape@[1])
                                            ==> listed_pos(
                                            nodes@,
                                            node(p, q, h2).0,
                                            node(p, q, h2).1,
                                        )
                                    },
                                done ==> forall|h2: int|
                                    {
                                        (1 <= h2 && 0 <= (#[trigger] node(p, q, h2)).0 < shape@[0]
                                            && 0 <= node(p, q, h2).1 < shape@[1]) ==> listed_pos(
                                            nodes@,
                                            node(p, q, h2).0,
                                            node(p, q, h2).1,
                                        )
                                    },
                            decreases 0x40000000 - h, (if done { 0int } else { 1int }),
                        {
                            let nx = cx + dx;
                            let ny = cy + dy;
                            proof {
                                assert((h + 1) * dx == h * dx + dx) by (nonlinear_arith);
                                assert((h + 1) * dy == h * dy + dy) by (nonlinear_arith);
                                assert((h + 1) * dx == nx - p@[0]);
                                assert((h + 1) * dy == ny - p@[1]);
                                assert(h + 1 < 0x40000000) by {
                                    if dx != 0 {
                                        assert(h + 1 <= 0x20000000) by (nonlinear_arith)
                                            requires
                                                h + 1 >= 1,
                                                dx != 0,
                                                0 - 0x20000000 <= (h + 1) * dx <= 0x20000000,
                                        ;
                                    } else {
                                        assert(dy != 0) by {
                                            if dy == 0 {
                                                assert(p@[0] == q@[0] && p@[1] == q@[1]);
                                                assert(p =~= q);
                                            }
                                        }
                                        assert(h + 1 <= 0x20000000) by (nonlinear_arith)
                                            requires
                                                h + 1 >= 1,
                                                dy != 0,
                                                0 - 0x20000000 <= (h + 1) * dy <= 0x20000000,
                                        ;
                                    }
                                }
                            }
                            proof {
                                assert(nx == p@[0] + (h + 1) * dx && ny == p@[1] + (h + 1) * dy)
                                    by {
                                    assert((h + 1) * dx == h * dx + dx) by (nonlinear_arith);
                                    assert((h + 1) * dy == h * dy + dy) by (nonlinear_arith);
                                }
                            }
                            if nx < 0 || ny < 0 || nx >= self.shape[0] as i64 || ny
                                >= self.shape[1] as i64 {
                                proof {
                                    assert forall|h2: int|
                                        {
                                            (1 <= h2 && 0 <= (#[trigger] node(p, q, h2)).0
                                                < shape@[0] && 0 <= node(p, q, h2).1 < shape@[1])
                                                ==> listed_pos(
                                                nodes@,
                                                node(p, q, h2).0,
                                                node(p, q, h2).1,
                                            )
                                        } by {
                                        if h2 >= h + 1 {
                                            lemma_line_stays_out(shape, p, q, h as int + 1, h2);
                                        }
                                    }
                                }
                                done = true;
                            } else {
                                h = h + 1;
                                let ghost before = nodes@;
                                insert_node(&mut nodes, [nx as usize, ny as usize]);
                                proof {
                                    assert(listed_pos(nodes@, nx as int, ny as int));
                                    assert(is_antinode(shape, groups, nx as int, ny as int)) by {
                                        assert(node(groups[gi as int][u as int], groups[gi as int][
                                        v as int], h as int) == (nx as int, ny as int));
                                    }
                                    assert forall|a: int, b: int| #[trigger] listed_pos(
                                        nodes@,
                                        a,
                                        b,
                                    ) implies is_antinode(shape, groups, a, b) by {
                                        if !listed_pos(before, a, b) {
                                            assert(a == nx as int && b == ny as int);
                                        }
                                    }
                                }
                                cx = nx;
                                cy = ny;
                            }
                        }
                    }
                    proof {
                        broadcast use vstd::array::axiom_array_ext_equal;

                        if start@[0] == end@[0] && start@[1] == end@[1] {
                            assert(start@ =~= end@);
                            assert(groups[gi as int][u as int] == groups[gi as int][v as int]);
                        }
                    }
                    v += 1;
                }
                u += 1;
            }
            gi += 1;
        }
        proof {
            assert forall|x: int, y: int| #[trigger] is_antinode(shape, groups, x, y) implies
                listed_pos(nodes@, x, y) by {
                let (gi2, u2, v2, h2) = choose|gi2: int, u2: int, v2: int, h2: int|
                    {
                        &&& 0 <= gi2 < groups.len()
                        &&& 0 <= u2 < groups[gi2].len()
                        &&& 0 <= v2 < groups[gi2].len()
                        &&& groups[gi2][u2] != groups[gi2][v2]
                        &&& h2 >= 1
                        &&& #[trigger] node(groups[gi2][u2], groups[gi2][v2], h2) == (x, y)
                        &&& 0 <= x < shape@[0]
                        &&& 0 <= y < shape@[1]
                    };
                assert(listed_pos(
                    nodes@,
                    node(groups[gi2][u2], groups[gi2][v2], h2).0,
                    node(groups[gi2][u2], groups[gi2][v2], h2).1,
                ));
            }
        }
        let mut out: usize = 0;
        let ghost rows = self.shape@[0] as int;
        let nrows = self.shape[0];
        let ncols = self.shape[1];
        let mut a: usize = 0;
        while a < nrows
            invariant
                shape == self.shape,
                groups == self.groups(),
                self == old(self),
                nrows == shape@[0],
                ncols == shape@[1],
                nrows <= 0x10000000,
                ncols <= 0x10000000,
                forall|x: int, y: int|
                    #[trigger] listed_pos(nodes@, x, y) == is_antinode(shape, groups, x, y),
                a <= nrows,
                out == anti_total(shape, groups, a as int),
                out <= a * ncols,
            decreases nrows - a,
        {
            let ghost out0 = out;
            let mut b: usize = 0;
            while b < ncols
                invariant
                    shape == self.shape,
                    groups == self.groups(),
                    self == old(self),
                    nrows == shape@[0],
                    ncols == shape@[1],
                    nrows <= 0x10000000,
                    ncols <= 0x10000000,
                    forall|x: int, y: int|
                        #[trigger] listed_pos(nodes@, x, y) == is_antinode(shape, groups, x, y),
                    a < nrows,
                    b <= ncols,
                    out == out0 + anti_row(shape, groups, a as int, b as int),
                    out0 == anti_total(shape, groups, a as int),
                    out0 <= a * ncols,
                decreases ncols - b,
            {
                proof {
                    lemma_anti_row_bounds(shape, groups, a as int, 0, b as int);
                    assert(a * ncols + ncols <= 0x10000000 * 0x10000000) by (nonlinear_arith)
                        requires
                            0 <= a < nrows <= 0x10000000,
                            0 <= ncols <= 0x10000000,
                    ;
                }
                if has_pos(&nodes, a, b) {
                    out += 1;
                }
                b += 1;
            }
            proof {
                assert((a + 1) * ncols == a * ncols + ncols) by (nonlinear_arith);
                lemma_anti_row_bounds(shape, groups, a as int, 0, ncols as int);
            }
            a += 1;
        }
        out
    }
}

} // verus!
