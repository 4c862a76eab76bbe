//! Sparse Conway cubes: a set of active integer coordinates in 3 or 4
//! dimensions, advanced generation by generation. Only active cells are
//! stored; a cell stays or becomes active according to how many of its 26
//! (3D) or 80 (4D) neighbours are active.

use vstd::prelude::*;

verus! {

broadcast use vstd::seq_lib::group_seq_properties;

/// A cell coordinate. In 3D mode the `w` component is always zero.
#[derive(Clone, Copy, PartialEq, Eq, Structural, Debug)]
pub struct Position {
    pub x: i32,
    pub y: i32,
    pub z: i32,
    pub w: i32,
}

/// Coordinate components this far from zero never overflow the arithmetic
/// below.
pub open spec fn pos_bounded(p: Position, b: int) -> bool {
    &&& -b <= p.x <= b
    &&& -b <= p.y <= b
    &&& -b <= p.z <= b
    &&& -b <= p.w <= b
}

pub open spec fn coords_bounded(s: Seq<Position>, b: int) -> bool {
    forall|i: int| 0 <= i < s.len() ==> pos_bounded(#[trigger] s[i], b)
}

/// `q` is one of the neighbours that the automaton inspects around `c`:
/// every component differs by at most one and at least one differs. In 3D
/// mode the neighbourhood lies in the `w == 0` plane.
pub open spec fn neighbour_of(c: Position, q: Position, use_4d: bool) -> bool {
    if use_4d {
        &&& -1 <= q.x - c.x <= 1
        &&& -1 <= q.y - c.y <= 1
        &&& -1 <= q.z - c.z <= 1
        &&& -1 <= q.w - c.w <= 1
        &&& !(q.x == c.x && q.y == c.y && q.z == c.z && q.w == c.w)
    } else {
        &&& q.w == 0
        &&& -1 <= q.x - c.x <= 1
        &&& -1 <= q.y - c.y <= 1
        &&& -1 <= q.z - c.z <= 1
        &&& !(q.x == c.x && q.y == c.y && q.z == c.z)
    }
}

/// Within the plane the automaton works in, being neighbours is symmetric.
pub proof fn lemma_neighbour_symmetric(c: Position, q: Position, use_4d: bool)
    requires
        !use_4d ==> c.w == 0 && q.w == 0,
    ensures
        neighbour_of(c, q, use_4d) == neighbour_of(q, c, use_4d),
{
}

impl Position {
    pub fn new(x: i32, y: i32, z: i32, w: i32) -> (r: Position)
        ensures
            r == (Position { x, y, z, w }),
    {
        Position { x, y, z, w }
    }

    /// All cells the automaton inspects around `self`, each exactly once:
    /// 26 in 3D mode, 80 in 4D mode.
    pub fn neighbours(&self, use_4d: bool) -> (r: Vec<Position>)
        requires
            pos_bounded(*self, 0x3000_0000),
        ensures
            forall|q: Position| r@.contains(q) <==> neighbour_of(*self, q, use_4d),
            r@.len() == (if use_4d {
                80int
            } else {
                26int
            }),
            r@.no_duplicates(),
            forall|i: int| 0 <= i < r@.len() ==> pos_bounded(#[trigger] r@[i], 0x3000_0001),
    {
        let c = *self;
        let mut r: Vec<Position> = Vec::new();
        if use_4d {
            let mut dz: usize = 0;
            while dz < 3
                invariant
                    dz <= 3,
                    pos_bounded(c, 0x3000_0000),
                    r@.len() == 27 * dz - (if 27 * dz >= 41 {
                        1int
                    } else {
                        0int
                    }),
                    forall|q: Position|
                        r@.contains(q) <==> (neighbour_of(c, q, true) && q.z - c.z + 1 < dz),
                    r@.no_duplicates(),
                    forall|i: int| 0 <= i < r@.len() ==> pos_bounded(#[trigger] r@[i], 0x3000_0001),
                decreases 3 - dz,
            {
                let mut dy: usize = 0;
                while dy < 3
                    invariant
                        dz < 3,
                        dy <= 3,
                        pos_bounded(c, 0x3000_0000),
                        r@.len() == 27 * dz + 9 * dy - (if 27 * dz + 9 * dy >= 41 {
                            1int
                        } else {
                            0int
                        }),
                        forall|q: Position|
                            r@.contains(q) <==> (neighbour_of(c, q, true) && (q.z - c.z + 1 < dz
                                || (q.z - c.z + 1 == dz && q.y - c.y + 1 < dy))),
                        r@.no_duplicates(),
                        forall|i: int|
                            0 <= i < r@.len() ==> pos_bounded(#[trigger] r@[i], 0x3000_0001),
                    decreases 3 - dy,
                {
                    let mut dx: usize = 0;
                    while dx < 3
                        invariant
                            dz < 3,
                            dy < 3,
                            dx <= 3,
                            pos_bounded(c, 0x3000_0000),
                            r@.len() == 27 * dz + 9 * dy + 3 * dx - (if 27 * dz + 9 * dy + 3 * dx
                                >= 41 {
                                1int
                            } else {
                                0int
                            }),
                            forall|q: Position|
                                r@.contains(q) <==> (neighbour_of(c, q, true) && (q.z - c.z + 1
                                    < dz || (q.z - c.z + 1 == dz && (q.y - c.y + 1 < dy || (q.y
                                    - c.y + 1 == dy && q.x - c.x + 1 < dx))))),
                            r@.no_duplicates(),
                            forall|i: int|
                                0 <= i < r@.len() ==> pos_bounded(#[trigger] r@[i], 0x3000_0001),
                        decreases 3 - dx,
                    {
                        let mut dw: usize = 0;
                        while dw < 3
                            invariant
                                dz < 3,
                                dy < 3,
                                dx < 3,
                                dw <= 3,
                                pos_bounded(c, 0x3000_0000),
                                r@.len() == 27 * dz + 9 * dy + 3 * dx + dw - (if 27 * dz + 9 * dy
                                    + 3 * dx + dw >= 41 {
                                    1int
                                } else {
                                    0int
                                }),
                                forall|q: Position|
                                    r@.contains(q) <==> (neighbour_of(c, q, true) && (q.z - c.z + 1
                                        < dz || (q.z - c.z + 1 == dz && (q.y - c.y + 1 < dy || (q.y
                                        - c.y + 1 == dy && (q.x - c.x + 1 < dx || (q.x - c.x + 1
                                        == dx && q.w - c.w + 1 < dw))))))),
                                r@.no_duplicates(),
                                forall|i: int|
                                    0 <= i < r@.len() ==> pos_bounded(
                                        #[trigger] r@[i],
                                        0x3000_0001,
                                    ),
                            decreases 3 - dw,
                        {
                            if !(dz == 1 && dy == 1 && dx == 1 && dw == 1) {
                                let q0 = Position {
                                    x: c.x + (dx as i32) - 1,
                                    y: c.y + (dy as i32) - 1,
                                    z: c.z + (dz as i32) - 1,
                                    w: c.w + (dw as i32) - 1,
                                };
                                proof {
                                    assert(!r@.contains(q0));
                                }
                                r.push(q0);
                            }
                            dw = dw + 1;
                        }
                        dx = dx + 1;
                    }
                    dy = dy + 1;
                }
                dz = dz + 1;
            }
        } else {
            let mut dz: usize = 0;
            while dz < 3
                invariant
                    dz <= 3,
                    pos_bounded(c, 0x3000_0000),
                    r@.len() == 9 * dz - (if 9 * dz >= 14 {
                        1int
                    } else {
                        0int
                    }),
                    forall|q: Position|
                        r@.contains(q) <==> (neighbour_of(c, q, false) && q.z - c.z + 1 < dz),
                    r@.no_duplicates(),
                    forall|i: int| 0 <= i < r@.len() ==> pos_bounded(#[trigger] r@[i], 0x3000_0001),
                decreases 3 - dz,
            {
                let mut dy: usize = 0;
                while dy < 3
                    invariant
                        dz < 3,
                        dy <= 3,
                        pos_bounded(c, 0x3000_0000),
                        r@.len() == 9 * dz + 3 * dy - (if 9 * dz + 3 * dy >= 14 {
                            1int
                        } else {
                            0int
                        }),
                        forall|q: Position|
                            r@.contains(q) <==> (neighbour_of(c, q, false) && (q.z - c.z + 1 < dz
                                || (q.z - c.z + 1 == dz && q.y - c.y + 1 < dy))),
                        r@.no_duplicates(),
                        forall|i: int|
                            0 <= i < r@.len() ==> pos_bounded(#[trigger] r@[i], 0x3000_0001),
                    decreases 3 - dy,
                {
                    let mut dx: usize = 0;
                    while dx < 3
                        invariant
                            dz < 3,
                            dy < 3,
                            dx <= 3,
                            pos_bounded(c, 0x3000_0000),
                            r@.len() == 9 * dz + 3 * dy + dx - (if 9 * dz + 3 * dy + dx >= 14 {
                                1int
                            } else {
                                0int
                            }),
                            forall|q: Position|
                                r@.contains(q) <==> (neighbour_of(c, q, false) && (q.z - c.z + 1
                                    < dz || (q.z - c.z + 1 == dz && (q.y - c.y + 1 < dy || (q.y
                                    - c.y + 1 == dy && q.x - c.x + 1 < dx))))),
                            r@.no_duplicates(),
                            forall|i: int|
                                0 <= i < r@.len() ==> pos_bounded(#[trigger] r@[i], 0x3000_0001),
                        decreases 3 - dx,
                    {
                        if !(dz == 1 && dy == 1 && dx == 1) {
                            let q0 = Position {
                                x: c.x + (dx as i32) - 1,
                                y: c.y + (dy as i32) - 1,
                                z: c.z + (dz as i32) - 1,
                                w: 0,
                            };
                            proof {
                                assert(!r@.contains(q0));
                            }
                            r.push(q0);
                        }
                        dx = dx + 1;
                    }
                    dy = dy + 1;
                }
                dz = dz + 1;
            }
        }
        r
    }
}


/// A total lexicographic order on coordinates: work lists kept in this
/// order are duplicate-free and support binary search.
pub open spec fn pos_lt(a: Position, b: Position) -> bool {
    ||| a.x < b.x
    ||| (a.x == b.x && a.y < b.y)
    ||| (a.x == b.x && a.y == b.y && a.z < b.z)
    ||| (a.x == b.x && a.y == b.y && a.z == b.z && a.w < b.w)
}

pub open spec fn sorted_pos(v: Seq<Position>) -> bool {
    forall|i: int, j: int| 0 <= i < j < v.len() ==> pos_lt(#[trigger] v[i], #[trigger] v[j])
}

fn lt_pos(a: &Position, b: &Position) -> (r: bool)
    ensures
        r == pos_lt(*a, *b),
{
    if a.x != b.x {
        a.x < b.x
    } else if a.y != b.y {
        a.y < b.y
    } else if a.z != b.z {
        a.z < b.z
    } else {
        a.w < b.w
    }
}

/// Binary search in a sorted list: whether `p` occurs, and the index where
/// it sits or would be inserted.
fn search_pos(v: &Vec<Position>, p: &Position) -> (r: (bool, usize))
    requires
        sorted_pos(v@),
    ensures
        r.1 <= v@.len(),
        r.0 ==> r.1 < v@.len() && v@[r.1 as int] == *p,
        !r.0 ==> !v@.contains(*p),
        forall|i: int| 0 <= i < r.1 ==> pos_lt(#[trigger] v@[i], *p),
        !r.0 ==> forall|i: int| r.1 <= i < v@.len() ==> pos_lt(*p, #[trigger] v@[i]),
{
    let mut lo: usize = 0;
    let mut hi: usize = v.len();
    while lo < hi
        invariant
            lo <= hi <= v@.len(),
            sorted_pos(v@),
            forall|i: int| 0 <= i < lo ==> pos_lt(#[trigger] v@[i], *p),
            forall|i: int| hi <= i < v@.len() ==> !pos_lt(#[trigger] v@[i], *p),
        decreases hi - lo,
    {
        let mid = lo + (hi - lo) / 2;
        if lt_pos(&v[mid], p) {
            proof {
                assert forall|i: int| 0 <= i < mid + 1 implies pos_lt(#[trigger] v@[i], *p) by {
                    if i < mid {
                        assert(pos_lt(v@[i], v@[mid as int]));
                    }
                }
            }
            lo = mid + 1;
        } else {
            proof {
                assert forall|i: int|
                    mid <= i < v@.len() implies !pos_lt(#[trigger] v@[i], *p) by {
                    if i > mid {
                        assert(pos_lt(v@[mid as int], v@[i]));
                    }
                }
            }
            hi = mid;
        }
    }
    if lo < v.len() {
        let cand = v[lo];
        if cand.x == p.x && cand.y == p.y && cand.z == p.z && cand.w == p.w {
            return (true, lo);
        }
    }
    proof {
        assert forall|i: int| lo <= i < v@.len() implies pos_lt(*p, #[trigger] v@[i]) by {
            assert(!pos_lt(v@[i], *p));
            assert(v@[i] != *p) by {
                if i == lo {
                } else {
                    assert(pos_lt(v@[lo as int], v@[i]));
                }
            }
        }
        assert forall|i: int| 0 <= i < v@.len() implies v@[i] != *p by {
            if i < lo {
                assert(pos_lt(v@[i], *p));
            } else {
                assert(pos_lt(*p, v@[i]));
            }
        }
        assert(!v@.contains(*p));
    }
    (false, lo)
}

/// Insert `p` into a sorted list unless it is already there: the list then
/// holds exactly the old cells plus `p`.
fn insert_sorted(v: &mut Vec<Position>, p: Position)
    requires
        sorted_pos(old(v)@),
    ensures
        sorted_pos(final(v)@),
        forall|q: Position| final(v)@.contains(q) <==> (old(v)@.contains(q) || q == p),
        final(v)@.len() <= old(v)@.len() + 1,
{
    let ghost prev = v@;
    let (found, idx) = search_pos(v, &p);
    if found {
        proof {
            assert(prev.contains(prev[idx as int]));
            assert forall|q: Position| prev.contains(q) <==> (prev.contains(q) || q == p) by {}
        }
        return ;
    }
    v.insert(idx, p);
    proof {
        prev.insert_ensures(idx as int, p);
        assert(v@ == prev.insert(idx as int, p));
        assert forall|a: int, b: int|
            0 <= a < b < v@.len() implies pos_lt(#[trigger] v@[a], #[trigger] v@[b]) by {
            let i = idx as int;
            if b < i {
                assert(v@[a] == prev[a] && v@[b] == prev[b]);
            } else if a < i && b == i {
                assert(v@[a] == prev[a] && v@[b] == p);
            } else if a < i && b > i {
                assert(v@[a] == prev[a] && v@[b] == prev[b - 1]);
                if b - 1 == a {
                    assert(pos_lt(prev[a], p) && pos_lt(p, prev[a]) == false);
                    assert(pos_lt(v@[a], v@[b]));
                } else {
                    assert(pos_lt(prev[a], prev[b - 1]));
                }
            } else if a == i {
                assert(v@[a] == p && v@[b] == prev[b - 1]);
                assert(pos_lt(p, prev[b - 1]));
            } else {
                assert(v@[a] == prev[a - 1] && v@[b] == prev[b - 1]);
                assert(pos_lt(prev[a - 1], prev[b - 1]));
            }
        }
        assert forall|q: Position| v@.contains(q) <==> (prev.contains(q) || q == p) by {
            if v@.contains(q) {
                let k = choose|k: int| 0 <= k < v@.len() && v@[k] == q;
                if k < idx {
                    assert(prev[k] == q);
                    assert(prev.contains(q));
                } else if k == idx {
                } else {
                    assert(prev[k - 1] == q);
                    assert(prev.contains(q));
                }
            }
            if prev.contains(q) {
                let k = choose|k: int| 0 <= k < prev.len() && prev[k] == q;
                if k < idx {
                    assert(v@[k] == q);
                } else {
                    assert(v@[k + 1] == q);
                }
                assert(v@.contains(q));
            }
            if q == p {
                assert(v@[idx as int] == q);
                assert(v@.contains(q));
            }
        }
    }
}

/// How many cells of `s` are neighbours of `c`.
pub open spec fn adj_count(s: Set<Position>, c: Position, use_4d: bool) -> nat {
    s.filter(|p: Position| neighbour_of(c, p, use_4d)).len()
}

/// The automaton's rule: an active cell survives with 2 or 3 active
/// neighbours; an inactive cell is born with exactly 3.
pub open spec fn rule_active(s: Set<Position>, q: Position, use_4d: bool) -> bool {
    if s.contains(q) {
        adj_count(s, q, use_4d) == 2 || adj_count(s, q, use_4d) == 3
    } else {
        adj_count(s, q, use_4d) == 3
    }
}

/// Which cells of the whole (3- or 4-dimensional) space are active after
/// one generation.
pub open spec fn next_active(s: Set<Position>, q: Position, use_4d: bool) -> bool {
    &&& (!use_4d ==> q.w == 0)
    &&& rule_active(s, q, use_4d)
}

/// One dense generation over the whole space.
pub open spec fn spec_step(s: Set<Position>, use_4d: bool) -> Set<Position> {
    Set::new(|q: Position| next_active(s, q, use_4d))
}

/// `n` dense generations.
pub open spec fn spec_run(s: Set<Position>, n: nat, use_4d: bool) -> Set<Position>
    decreases n,
{
    if n == 0 {
        s
    } else {
        spec_step(spec_run(s, (n - 1) as nat, use_4d), use_4d)
    }
}

/// Neighbours of `c` among the cells of the list, counted one by one.
pub open spec fn count_neighbours_in(sv: Seq<Position>, c: Position, use_4d: bool) -> nat
    decreases sv.len(),
{
    if sv.len() == 0 {
        0
    } else {
        count_neighbours_in(sv.drop_last(), c, use_4d) + (if neighbour_of(
            c,
            sv.last(),
            use_4d,
        ) {
            1nat
        } else {
            0nat
        })
    }
}

/// Counting along a duplicate-free list matches the set cardinality.
proof fn lemma_count_matches_set(sv: Seq<Position>, c: Position, use_4d: bool)
    requires
        sv.no_duplicates(),
    ensures
        count_neighbours_in(sv, c, use_4d) == adj_count(sv.to_set(), c, use_4d),
    decreases sv.len(),
{
    broadcast use vstd::seq_lib::seq_to_set_is_finite;

    let f = |p: Position| neighbour_of(c, p, use_4d);
    if sv.len() == 0 {
        assert(sv.to_set() =~= Set::<Position>::empty());
        assert(sv.to_set().filter(f) =~= Set::<Position>::empty());
    } else {
        let prev = sv.drop_last();
        let last = sv.last();
        assert(prev.no_duplicates());
        lemma_count_matches_set(prev, c, use_4d);
        assert(!prev.contains(last));
        assert(sv.to_set() =~= prev.to_set().insert(last));
        prev.to_set().lemma_len_filter(f);
        if f(last) {
            assert(sv.to_set().filter(f) =~= prev.to_set().filter(f).insert(last));
            assert(!prev.to_set().filter(f).contains(last));
        } else {
            assert(sv.to_set().filter(f) =~= prev.to_set().filter(f));
        }
    }
}

/// The sparse automaton state: the list of active cells, duplicate-free.
pub struct Space {
    pub cubes: Vec<Position>,
}

impl Space {
    /// The set of active cells.
    pub open spec fn active_set(&self) -> Set<Position> {
        self.cubes@.to_set()
    }

    /// Each active cell is stored once.
    pub open spec fn wf(&self) -> bool {
        self.cubes@.no_duplicates()
    }

    /// A 3D state: every active cell lies in the `w == 0` plane.
    pub open spec fn in_plane(&self) -> bool {
        forall|i: int| 0 <= i < self.cubes@.len() ==> (#[trigger] self.cubes@[i]).w == 0
    }

    /// Build the starting state from a 2D pattern: cell (x, y, 0, 0) is
    /// active exactly when row y has `true` in column x.
    pub fn from_rows(rows: &Vec<Vec<bool>>) -> (r: Space)
        requires
            rows@.len() <= 0x1000_0000,
            forall|y: int| 0 <= y < rows@.len() ==> (#[trigger] rows@[y])@.len() <= 0x1000_0000,
        ensures
            r.wf(),
            r.in_plane(),
            coords_bounded(r.cubes@, 0x1000_0000),
            forall|q: Position|
                r.active_set().contains(q) <==> (q.z == 0 && q.w == 0 && 0 <= q.y < rows@.len()
                    && 0 <= q.x < rows@[q.y as int]@.len() && rows@[q.y as int]@[q.x as int]),
    {
        let mut cubes: Vec<Position> = Vec::new();
        let mut y: usize = 0;
        let rows_n = rows.len();
        while y < rows_n
            invariant
                y <= rows_n,
                rows_n == rows@.len(),
                rows@.len() <= 0x1000_0000,
                forall|yy: int|
                    0 <= yy < rows@.len() ==> (#[trigger] rows@[yy])@.len() <= 0x1000_0000,
                cubes@.no_duplicates(),
                coords_bounded(cubes@, 0x1000_0000),
                forall|q: Position|
                    cubes@.contains(q) <==> (q.z == 0 && q.w == 0 && 0 <= q.y < y && 0 <= q.x
                        < rows@[q.y as int]@.len() && rows@[q.y as int]@[q.x as int]),
            decreases rows_n - y,
        {
            let row_n = rows[y].len();
            let mut x: usize = 0;
            while x < row_n
                invariant
                    x <= row_n,
                    y < rows_n,
                    rows_n == rows@.len(),
                    rows@.len() <= 0x1000_0000,
                    row_n == rows@[y as int]@.len(),
                    forall|yy: int|
                        0 <= yy < rows@.len() ==> (#[trigger] rows@[yy])@.len() <= 0x1000_0000,
                    cubes@.no_duplicates(),
                    coords_bounded(cubes@, 0x1000_0000),
                    forall|q: Position|
                        cubes@.contains(q) <==> (q.z == 0 && q.w == 0 && ((0 <= q.y < y && 0 <= q.x
                            < rows@[q.y as int]@.len() && rows@[q.y as int]@[q.x as int]) || (q.y
                            == y && 0 <= q.x < x && rows@[q.y as int]@[q.x as int]))),
                decreases row_n - x,
            {
                if rows[y][x] {
                    let q0 = Position { x: x as i32, y: y as i32, z: 0, w: 0 };
                    proof {
                        assert(!cubes@.contains(q0));
                    }
                    cubes.push(q0);
                }
                x = x + 1;
            }
            y = y + 1;
        }
        proof {
            assert forall|q: Position|
                cubes@.to_set().contains(q) <==> (q.z == 0 && q.w == 0 && 0 <= q.y < rows@.len()
                    && 0 <= q.x < rows@[q.y as int]@.len() && rows@[q.y as int]@[q.x as int]) by {
                assert(cubes@.to_set().contains(q) == cubes@.contains(q));
            }
            assert forall|ii: int| 0 <= ii < cubes@.len() implies (#[trigger] cubes@[ii]).w
                == 0 by {
                assert(cubes@.contains(cubes@[ii]));
            }
        }
        Space { cubes }
    }

    /// How many active cells there are.
    pub fn count_active(&self) -> (r: usize)
        requires
            self.wf(),
        ensures
            r == self.active_set().len(),
    {
        proof {
            self.cubes@.unique_seq_to_set();
        }
        self.cubes.len()
    }

    /// Apply the automaton's rule to one cell: whether it is active in the
    /// next generation, judged against the current active set.
    pub fn new_state(&self, position: &Position, use_4d: bool) -> (r: bool)
        requires
            self.wf(),
            coords_bounded(self.cubes@, 0x3000_0000),
            pos_bounded(*position, 0x3000_0000),
        ensures
            r == rule_active(self.active_set(), *position, use_4d),
    {
        let c = *position;
        let mut count: usize = 0;
        let mut cur_active = false;
        let mut i: usize = 0;
        let n = self.cubes.len();
        while i < n
            invariant
                i <= n,
                n == self.cubes@.len(),
                self.wf(),
                coords_bounded(self.cubes@, 0x3000_0000),
                pos_bounded(c, 0x3000_0000),
                count <= i,
                count == count_neighbours_in(self.cubes@.subrange(0, i as int), c, use_4d),
                cur_active == self.cubes@.subrange(0, i as int).contains(c),
            decreases n - i,
        {
            let p = self.cubes[i];
            let is_n = -1 <= p.x - c.x && p.x - c.x <= 1 && -1 <= p.y - c.y && p.y - c.y <= 1
                && -1 <= p.z - c.z && p.z - c.z <= 1 && (if use_4d {
                -1 <= p.w - c.w && p.w - c.w <= 1 && !(p.x == c.x && p.y == c.y && p.z == c.z
                    && p.w == c.w)
            } else {
                p.w == 0 && !(p.x == c.x && p.y == c.y && p.z == c.z)
            });
            proof {
                assert(is_n == neighbour_of(c, self.cubes@[i as int], use_4d));
                assert(self.cubes@.subrange(0, i as int + 1).drop_last() =~= self.cubes@.subrange(
                    0,
                    i as int,
                ));
                assert(self.cubes@.subrange(0, i as int + 1).last() == self.cubes@[i as int]);
            }
            if is_n {
                count = count + 1;
            }
            if p.x == c.x && p.y == c.y && p.z == c.z && p.w == c.w {
                cur_active = true;
                proof {
                    assert(self.cubes@.subrange(0, i as int + 1)[i as int] == c);
                }
            } else {
                proof {
                    let sub1 = self.cubes@.subrange(0, i as int + 1);
                    let sub0 = self.cubes@.subrange(0, i as int);
                    assert(sub1[i as int] == self.cubes@[i as int]);
                    assert(self.cubes@[i as int] != c);
                    if sub1.contains(c) {
                        let w = choose|w: int| 0 <= w < sub1.len() && sub1[w] == c;
                        assert(w < i);
                        assert(sub0[w] == c);
                        assert(sub0.contains(c));
                    }
                    if sub0.contains(c) {
                        let w = choose|w: int| 0 <= w < sub0.len() && sub0[w] == c;
                        assert(sub1[w] == c);
                        assert(sub1.contains(c));
                    }
                }
            }
            i = i + 1;
        }
        proof {
            assert(self.cubes@.subrange(0, n as int) =~= self.cubes@);
            lemma_count_matches_set(self.cubes@, c, use_4d);
            assert(cur_active == self.active_set().contains(c));
        }
        if cur_active {
            count == 2 || count == 3
        } else {
            count == 3
        }
    }

    /// One generation: the new active set is built apart and then swapped
    /// in, so the rule is judged against the old generation only. The
    /// result is exactly the dense rule applied to every cell of the
    /// space: cells away from the active region stay inactive because all
    /// their neighbour counts are zero.
    #[verifier::rlimit(60)]
    pub fn simulate(&mut self, use_4d: bool)
        requires
            old(self).wf(),
            coords_bounded(old(self).cubes@, 0x2000_0000),
            !use_4d ==> old(self).in_plane(),
        ensures
            final(self).wf(),
            final(self).active_set() == spec_step(old(self).active_set(), use_4d),
            !use_4d ==> final(self).in_plane(),
            forall|b: int|
                #[trigger] coords_bounded(old(self).cubes@, b) ==> coords_bounded(
                    final(self).cubes@,
                    b + 1,
                ),
    {
        let ghost sv = self.cubes@;
        let ghost s = self.cubes@.to_set();
        let mut cands: Vec<Position> = Vec::new();
        let mut i: usize = 0;
        let n = self.cubes.len();
        while i < n
            invariant
                i <= n,
                n == sv.len(),
                sv == self.cubes@,
                self.wf(),
                coords_bounded(sv, 0x2000_0000),
                !use_4d ==> self.in_plane(),
                sorted_pos(cands@),
                forall|q: Position|
                    cands@.contains(q) <==> exists|j: int|
                        0 <= j < i && ((#[trigger] sv[j]) == q || neighbour_of(sv[j], q, use_4d)),
                forall|k: int|
                    0 <= k < cands@.len() ==> pos_bounded(#[trigger] cands@[k], 0x2000_0001),
                forall|k: int| 0 <= k < cands@.len() ==> (!use_4d ==> (#[trigger] cands@[k]).w == 0),
            decreases n - i,
        {
            let ghost cands_a = cands@;
            let cube = self.cubes[i];
            insert_sorted(&mut cands, cube);
            proof {
                assert(pos_bounded(sv[i as int], 0x2000_0000));
                assert(!use_4d ==> sv[i as int].w == 0);
                assert forall|kk: int|
                    0 <= kk < cands@.len() implies pos_bounded(#[trigger] cands@[kk], 0x2000_0001)
                    && (!use_4d ==> cands@[kk].w == 0) by {
                    assert(cands@.contains(cands@[kk]));
                    if cands_a.contains(cands@[kk]) {
                        let w = choose|w: int| 0 <= w < cands_a.len() && cands_a[w] == cands@[kk];
                        assert(pos_bounded(cands_a[w], 0x2000_0001));
                    } else {
                        assert(cands@[kk] == cube);
                    }
                }
            }
            let ghost cands_b = cands@;
            let ns = cube.neighbours(use_4d);
            let mut k: usize = 0;
            let ns_n = ns.len();
            while k < ns_n
                invariant
                    k <= ns_n,
                    ns_n == ns@.len(),
                    i < n,
                    n == sv.len(),
                    sv == self.cubes@,
                    self.wf(),
                    coords_bounded(sv, 0x2000_0000),
                    !use_4d ==> self.in_plane(),
                    pos_bounded(sv[i as int], 0x2000_0000),
                    forall|q: Position| ns@.contains(q) <==> neighbour_of(sv[i as int], q, use_4d),
                    sorted_pos(cands@),
                    forall|q: Position|
                        #![trigger cands_b.contains(q)]
                        cands@.contains(q) <==> (cands_b.contains(q) || ns@.subrange(
                            0,
                            k as int,
                        ).contains(q)),
                    forall|kk: int|
                        0 <= kk < cands@.len() ==> pos_bounded(#[trigger] cands@[kk], 0x2000_0001),
                    forall|kk: int|
                        0 <= kk < cands@.len() ==> (!use_4d ==> (#[trigger] cands@[kk]).w == 0),
                    forall|q: Position|
                        cands_b.contains(q) <==> (cands_a.contains(q) || q == sv[i as int]),
                decreases ns_n - k,
            {
                let q0 = ns[k];
                let ghost cands_c = cands@;
                proof {
                    assert(forall|q: Position|
                        #![trigger cands_c.contains(q)]
                        cands_c.contains(q) <==> (cands_b.contains(q) || ns@.subrange(
                            0,
                            k as int,
                        ).contains(q)));
                    assert(ns@.contains(ns@[k as int]));
                    assert(neighbour_of(sv[i as int], q0, use_4d));
                    assert(pos_bounded(q0, 0x2000_0001));
                    assert forall|q: Position|
                        #![trigger ns@.subrange(0, k as int + 1).contains(q)]
                        ns@.subrange(0, k as int + 1).contains(q) <==> (ns@.subrange(
                            0,
                            k as int,
                        ).contains(q) || q == q0) by {
                        assert(ns@.subrange(0, k as int + 1).drop_last() =~= ns@.subrange(
                            0,
                            k as int,
                        ));
                        let sub1 = ns@.subrange(0, k as int + 1);
                        if sub1.contains(q) {
                            let w = choose|w: int| 0 <= w < sub1.len() && sub1[w] == q;
                            if w < k {
                                assert(ns@.subrange(0, k as int)[w] == q);
                            }
                        }
                        if ns@.subrange(0, k as int).contains(q) {
                            let w = choose|w: int| 0 <= w < k && ns@.subrange(0, k as int)[w] == q;
                            assert(ns@.subrange(0, k as int + 1)[w] == q);
                        }
                        if q == q0 {
                            assert(ns@.subrange(0, k as int + 1)[k as int] == q);
                        }
                    }
                }
                insert_sorted(&mut cands, q0);
                proof {
                    assert forall|q: Position|
                        #![trigger cands_b.contains(q)]
                        cands@.contains(q) <==> (cands_b.contains(q) || ns@.subrange(
                            0,
                            k as int + 1,
                        ).contains(q)) by {
                        assert(cands@.contains(q) <==> (cands_c.contains(q) || q == q0));
                        assert(cands_c.contains(q) <==> (cands_b.contains(q) || ns@.subrange(
                            0,
                            k as int,
                        ).contains(q)));
                    }
                    assert forall|kk: int|
                        0 <= kk < cands@.len() implies pos_bounded(
                        #[trigger] cands@[kk],
                        0x2000_0001,
                    ) && (!use_4d ==> cands@[kk].w == 0) by {
                        assert(cands@.contains(cands@[kk]));
                        if cands_c.contains(cands@[kk]) {
                            let w = choose|w: int|
                                0 <= w < cands_c.len() && cands_c[w] == cands@[kk];
                            assert(pos_bounded(cands_c[w], 0x2000_0001));
                        } else {
                            assert(cands@[kk] == q0);
                            assert(neighbour_of(sv[i as int], q0, use_4d));
                        }
                    }
                }
                k = k + 1;
            }
            proof {
                assert(forall|q: Position|
                    #![trigger cands_b.contains(q)]
                    cands@.contains(q) <==> (cands_b.contains(q) || ns@.subrange(
                        0,
                        k as int,
                    ).contains(q)));
                assert(k == ns_n);
                assert(ns@.subrange(0, ns_n as int) =~= ns@);
                assert forall|q: Position|
                    cands@.contains(q) <==> exists|j: int|
                        0 <= j < i + 1 && ((#[trigger] sv[j]) == q || neighbour_of(
                            sv[j],
                            q,
                            use_4d,
                        )) by {
                    if cands@.contains(q) {
                        if cands_a.contains(q) {
                            let j = choose|j: int|
                                0 <= j < i && ((#[trigger] sv[j]) == q || neighbour_of(
                                    sv[j],
                                    q,
                                    use_4d,
                                ));
                            assert(0 <= j < i + 1 && (sv[j] == q || neighbour_of(
                                sv[j],
                                q,
                                use_4d,
                            )));
                        } else {
                            assert(sv[i as int] == q || neighbour_of(sv[i as int], q, use_4d));
                        }
                    }
                    if exists|j: int|
                        0 <= j < i + 1 && ((#[trigger] sv[j]) == q || neighbour_of(
                            sv[j],
                            q,
                            use_4d,
                        )) {
                        let j = choose|j: int|
                            0 <= j < i + 1 && ((#[trigger] sv[j]) == q || neighbour_of(
                                sv[j],
                                q,
                                use_4d,
                            ));
                        if j < i {
                            assert(cands_a.contains(q));
                            assert(cands_b.contains(q));
                        } else {
                            if sv[j] == q {
                                assert(cands_b.contains(q));
                            } else {
                                assert(ns@.contains(q));
                                assert(ns@.subrange(0, ns_n as int).contains(q));
                                assert(cands_b.contains(q) || ns@.subrange(
                                    0,
                                    ns_n as int,
                                ).contains(q));
                            }
                        }
                        assert(cands_b.contains(q) || ns@.subrange(0, ns_n as int).contains(q));
                        if cands_b.contains(q) {
                            assert(cands@.contains(q));
                        } else {
                            assert(ns@.subrange(0, ns_n as int).contains(q));
                            assert(cands@.contains(q));
                        }
                        assert(cands@.contains(q));
                    }
                }
            }
            i = i + 1;
        }
        let mut next: Vec<Position> = Vec::new();
        let mut j: usize = 0;
        let cands_n = cands.len();
        while j < cands_n
            invariant
                j <= cands_n,
                cands_n == cands@.len(),
                sv == self.cubes@,
                s == sv.to_set(),
                self.wf(),
                coords_bounded(sv, 0x2000_0000),
                sorted_pos(cands@),
                forall|kk: int|
                    0 <= kk < cands@.len() ==> pos_bounded(#[trigger] cands@[kk], 0x2000_0001),
                forall|kk: int|
                    0 <= kk < cands@.len() ==> (!use_4d ==> (#[trigger] cands@[kk]).w == 0),
                forall|q: Position|
                    cands@.contains(q) <==> exists|jj: int|
                        0 <= jj < sv.len() && ((#[trigger] sv[jj]) == q || neighbour_of(
                            sv[jj],
                            q,
                            use_4d,
                        )),
                forall|q: Position|
                    next@.contains(q) <==> (cands@.subrange(0, j as int).contains(q) && rule_active(
                        s,
                        q,
                        use_4d,
                    )),
                forall|a: int|
                    0 <= a < next@.len() ==> cands@.subrange(0, j as int).contains(
                        #[trigger] next@[a],
                    ),
                next@.no_duplicates(),
                forall|kk: int|
                    0 <= kk < next@.len() ==> pos_bounded(#[trigger] next@[kk], 0x2000_0001),
                forall|kk: int|
                    0 <= kk < next@.len() ==> (!use_4d ==> (#[trigger] next@[kk]).w == 0),
            decreases cands_n - j,
        {
            let q0 = cands[j];
            proof {
                assert(cands@.contains(cands@[j as int]));
                assert forall|q: Position|
                    #![trigger cands@.subrange(0, j as int + 1).contains(q)]
                    cands@.subrange(0, j as int + 1).contains(q) <==> (cands@.subrange(
                        0,
                        j as int,
                    ).contains(q) || q == q0) by {
                    assert(cands@.subrange(0, j as int + 1).drop_last() =~= cands@.subrange(
                        0,
                        j as int,
                    ));
                    let sub1 = cands@.subrange(0, j as int + 1);
                    if sub1.contains(q) {
                        let w = choose|w: int| 0 <= w < sub1.len() && sub1[w] == q;
                        if w < j {
                            assert(cands@.subrange(0, j as int)[w] == q);
                        }
                    }
                    if cands@.subrange(0, j as int).contains(q) {
                        let w = choose|w: int| 0 <= w < j && cands@.subrange(0, j as int)[w] == q;
                        assert(cands@.subrange(0, j as int + 1)[w] == q);
                    }
                    if q == q0 {
                        assert(cands@.subrange(0, j as int + 1)[j as int] == q);
                    }
                }
                assert(!cands@.subrange(0, j as int).contains(q0)) by {
                    if cands@.subrange(0, j as int).contains(q0) {
                        let w = choose|w: int| 0 <= w < j && cands@.subrange(0, j as int)[w] == q0;
                        assert(pos_lt(cands@[w], cands@[j as int]));
                    }
                }
            }
            if self.new_state(&q0, use_4d) {
                proof {
                    assert(!next@.contains(q0));
                }
                next.push(q0);
            }
            j = j + 1;
        }
        proof {
            assert(cands@.subrange(0, cands_n as int) =~= cands@);
            assert forall|q: Position|
                next@.to_set().contains(q) == spec_step(s, use_4d).contains(q) by {
            if next@.contains(q) {
                    assert(rule_active(s, q, use_4d));
                    assert(!use_4d ==> q.w == 0);
                    assert(next_active(s, q, use_4d));
                } else {
                    if next_active(s, q, use_4d) {
                        // the cell is a candidate: it is active, or has an
                        // active neighbour
                        if s.contains(q) {
                            let w = choose|w: int| 0 <= w < sv.len() && sv[w] == q;
                            assert(sv[w] == q || neighbour_of(sv[w], q, use_4d));
                            assert(cands@.contains(q));
                        } else {
                            let f = |p: Position| neighbour_of(q, p, use_4d);
                            assert(adj_count(s, q, use_4d) == 3);
                            assert(s.filter(f).len() != 0);
                            vstd::seq_lib::seq_to_set_is_finite(sv);
                            s.lemma_len_filter(f);
                            let p = s.filter(f).choose();
                            assert(s.filter(f).contains(p));
                            assert(s.contains(p) && neighbour_of(q, p, use_4d));
                            let w = choose|w: int| 0 <= w < sv.len() && sv[w] == p;
                            lemma_neighbour_symmetric(q, p, use_4d);
                            assert(neighbour_of(p, q, use_4d));
                            assert(sv[w] == q || neighbour_of(sv[w], q, use_4d));
                            assert(cands@.contains(q));
                        }
                        assert(next@.contains(q));
                        assert(false);
                    }
                }
            }
            assert(next@.to_set() =~= spec_step(s, use_4d));
            assert forall|b: int|
                #[trigger] coords_bounded(sv, b) implies coords_bounded(next@, b + 1) by {
                assert forall|ii: int|
                    0 <= ii < next@.len() implies pos_bounded(#[trigger] next@[ii], b + 1) by {
                    let q = next@[ii];
                    assert(next@.contains(q));
                    assert(cands@.subrange(0, cands_n as int).contains(q));
                    assert(cands@.contains(q));
                    let jj = choose|jj: int|
                        0 <= jj < sv.len() && ((#[trigger] sv[jj]) == q || neighbour_of(
                            sv[jj],
                            q,
                            use_4d,
                        ));
                    assert(pos_bounded(sv[jj], b));
                }
            }
        }
        self.cubes = next;
    }

    /// Run `turns` generations from a starting state, leaving the start
    /// untouched. The result is the dense evolution of the starting set.
    pub fn run(content: &Self, turns: usize, use_4d: bool) -> (r: Space)
        requires
            content.wf(),
            turns <= 0x1000_0000,
            coords_bounded(content.cubes@, 0x2000_0000 - turns),
            !use_4d ==> content.in_plane(),
        ensures
            r.wf(),
            r.active_set() == spec_run(content.active_set(), turns as nat, use_4d),
            !use_4d ==> r.in_plane(),
    {
        let mut cubes: Vec<Position> = Vec::new();
        let mut i: usize = 0;
        let n = content.cubes.len();
        while i < n
            invariant
                i <= n,
                n == content.cubes@.len(),
                cubes@ == content.cubes@.subrange(0, i as int),
            decreases n - i,
        {
            cubes.push(content.cubes[i]);
            proof {
                assert(cubes@ =~= content.cubes@.subrange(0, i as int + 1));
            }
            i = i + 1;
        }
        proof {
            assert(cubes@ =~= content.cubes@);
        }
        let mut space = Space { cubes };
        let mut t: usize = 0;
        while t < turns
            invariant
                t <= turns,
                turns <= 0x1000_0000,
                space.wf(),
                !use_4d ==> space.in_plane(),
                coords_bounded(space.cubes@, 0x2000_0000 - turns + t),
                space.active_set() == spec_run(content.active_set(), t as nat, use_4d),
            decreases turns - t,
        {
            let ghost pre = space.cubes@;
            proof {
                assert forall|ii: int|
                    0 <= ii < pre.len() implies pos_bounded(#[trigger] pre[ii], 0x2000_0000) by {
                    assert(pos_bounded(pre[ii], 0x2000_0000 - turns + t));
                }
            }
            space.simulate(use_4d);
            proof {
                assert(coords_bounded(pre, 0x2000_0000 - turns + t));
                assert(coords_bounded(space.cubes@, 0x2000_0000 - turns + t + 1));
            }
            t = t + 1;
        }
        space
    }
}


impl Space {
    /// Build the starting state from the text pattern: `#` marks an active
    /// cell of the z = 0, w = 0 plane.
    pub fn from_lines(lines: &Vec<String>) -> (r: Space)
        requires
            lines@.len() <= 0x1000_0000,
            forall|y: int| 0 <= y < lines@.len() ==> (#[trigger] lines@[y])@.len() <= 0x1000_0000,
        ensures
            r.wf(),
            r.in_plane(),
            coords_bounded(r.cubes@, 0x1000_0000),
            forall|q: Position|
                r.active_set().contains(q) <==> (q.z == 0 && q.w == 0 && 0 <= q.y < lines@.len()
                    && 0 <= q.x < lines@[q.y as int]@.len() && lines@[q.y as int]@[q.x as int]
                    == '#'),
    {
        let mut rows: Vec<Vec<bool>> = Vec::new();
        let mut y: usize = 0;
        let n = lines.len();
        while y < n
            invariant
                y <= n,
                n == lines@.len(),
                rows@.len() == y,
                forall|yy: int|
                    0 <= yy < y ==> (#[trigger] rows@[yy])@.len() == lines@[yy]@.len(),
                forall|yy: int, xx: int|
                    0 <= yy < y && 0 <= xx < rows@[yy]@.len() ==> rows@[yy]@[xx] == (
                    lines@[yy]@[xx] == '#'),
            decreases n - y,
        {
            let line = &lines[y];
            let ln = line.as_str().unicode_len();
            let mut row: Vec<bool> = Vec::new();
            let mut x: usize = 0;
            while x < ln
                invariant
                    x <= ln,
                    y < n,
                    n == lines@.len(),
                    ln == lines@[y as int]@.len(),
                    line@ == lines@[y as int]@,
                    row@.len() == x,
                    forall|xx: int|
                        0 <= xx < x ==> row@[xx] == (lines@[y as int]@[xx] == '#'),
                decreases ln - x,
            {
                row.push(line.as_str().get_char(x) == '#');
                x = x + 1;
            }
            rows.push(row);
            y = y + 1;
        }
        let space = Space::from_rows(&rows);
        proof {
            assert forall|q: Position|
                space.active_set().contains(q) <==> (q.z == 0 && q.w == 0 && 0 <= q.y
                    < lines@.len() && 0 <= q.x < lines@[q.y as int]@.len() && lines@[
                q.y as int]@[q.x as int] == '#') by {
                if 0 <= q.y < rows@.len() {
                    assert(rows@[q.y as int]@.len() == lines@[q.y as int]@.len());
                    if 0 <= q.x < rows@[q.y as int]@.len() {
                        assert(rows@[q.y as int]@[q.x as int] == (lines@[q.y as int]@[q.x as int]
                            == '#'));
                    }
                }
            }
        }
        space
    }
}


impl Space {
    /// Read a starting pattern and run it the given number of generations,
    /// rejecting oversized inputs rather than risking coordinate overflow.
    pub fn run_from_text(lines: &Vec<String>, turns: usize, use_4d: bool) -> (r: Option<Space>)
        ensures
            r matches Some(space) ==> space.wf() && space.active_set() == spec_run(
                space_of_lines(lines@),
                turns as nat,
                use_4d,
            ),
            r is None <==> lines@.len() > 0x1000_0000 || turns > 0x1000_0000 || exists|y: int|
                0 <= y < lines@.len() && (#[trigger] lines@[y])@.len() > 0x1000_0000,
    {
        if lines.len() > 0x1000_0000 {
            return None;
        }
        if turns > 0x1000_0000 {
            return None;
        }
        let mut y: usize = 0;
        let n = lines.len();
        while y < n
            invariant
                y <= n,
                n == lines@.len(),
                forall|k: int| 0 <= k < y ==> (#[trigger] lines@[k])@.len() <= 0x1000_0000,
            decreases n - y,
        {
            if lines[y].as_str().unicode_len() > 0x1000_0000 {
                proof {
                    assert(lines@[y as int]@.len() > 0x1000_0000);
                }
                return None;
            }
            y = y + 1;
        }
        let start = Space::from_lines(lines);
        proof {
            assert forall|q: Position|
                start.active_set().contains(q) <==> space_of_lines(lines@).contains(q) by {}
            assert(start.active_set() =~= space_of_lines(lines@));
            assert forall|ii: int|
                0 <= ii < start.cubes@.len() implies pos_bounded(
                #[trigger] start.cubes@[ii],
                0x2000_0000 - turns,
            ) by {
                assert(pos_bounded(start.cubes@[ii], 0x1000_0000));
            }
        }
        proof {
            assert(!(exists|yy: int|
                0 <= yy < lines@.len() && (#[trigger] lines@[yy])@.len() > 0x1000_0000)) by {
                if exists|yy: int|
                    0 <= yy < lines@.len() && (#[trigger] lines@[yy])@.len() > 0x1000_0000 {
                    let yy = choose|yy: int|
                        0 <= yy < lines@.len() && (#[trigger] lines@[yy])@.len() > 0x1000_0000;
                    assert(lines@[yy]@.len() <= 0x1000_0000);
                }
            }
        }
        let done = Space::run(&start, turns, use_4d);
        Some(done)
    }
}

/// The cells a text pattern marks active: `#` in the z = 0, w = 0 plane.
pub open spec fn space_of_lines(lines: Seq<String>) -> Set<Position> {
    Set::new(
        |q: Position|
            q.z == 0 && q.w == 0 && 0 <= q.y < lines.len() && 0 <= q.x < lines[q.y as int]@.len()
                && lines[q.y as int]@[q.x as int] == '#',
    )
}

} // verus!
