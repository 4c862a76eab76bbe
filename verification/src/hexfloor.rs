//! Hex tile walks: steps over a hexagonal floor written as run-together
//! direction names, using axial coordinates.

use vstd::prelude::*;

verus! {

/// One of the six hex directions.
#[derive(Clone, Copy, PartialEq, Eq, Structural, Debug)]
pub enum Direction {
    E,
    SE,
    SW,
    W,
    NW,
    NE,
}

/// The direction a (whole) word names.
pub open spec fn spec_direction_of(s: Seq<char>) -> Option<Direction> {
    if s =~= seq!['e'] {
        Some(Direction::E)
    } else if s =~= seq!['s', 'e'] {
        Some(Direction::SE)
    } else if s =~= seq!['s', 'w'] {
        Some(Direction::SW)
    } else if s =~= seq!['w'] {
        Some(Direction::W)
    } else if s =~= seq!['n', 'w'] {
        Some(Direction::NW)
    } else if s =~= seq!['n', 'e'] {
        Some(Direction::NE)
    } else {
        None
    }
}

/// A walk written without separators, read greedily: letters gather until
/// they name a direction.
pub open spec fn spec_walk(s: Seq<char>, i: int, cur: Seq<char>) -> Seq<Direction>
    decreases s.len() - i,
{
    if i < 0 || i >= s.len() {
        Seq::empty()
    } else {
        let cur2 = cur.push(s[i]);
        match spec_direction_of(cur2) {
            Some(d) => seq![d] + spec_walk(s, i + 1, Seq::empty()),
            None => spec_walk(s, i + 1, cur2),
        }
    }
}

impl Direction {
    /// The direction a word names, if any.
    pub fn from_string(value: &str) -> (r: Option<Direction>)
        ensures
            r == spec_direction_of(value@),
    {
        let n = value.unicode_len();
        if n == 1 {
            let c0 = value.get_char(0);
            if c0 == 'e' {
                proof {
                    assert(value@ =~= seq!['e']);
                }
                return Some(Direction::E);
            }
            if c0 == 'w' {
                proof {
                    assert(value@ =~= seq!['w']);
                }
                return Some(Direction::W);
            }
            proof {
                lemma_not_any_direction(value@);
            }
            return None;
        }
        if n == 2 {
            let c0 = value.get_char(0);
            let c1 = value.get_char(1);
            if c0 == 's' && c1 == 'e' {
                proof {
                    assert(value@ =~= seq!['s', 'e']);
                }
                return Some(Direction::SE);
            }
            if c0 == 's' && c1 == 'w' {
                proof {
                    assert(value@ =~= seq!['s', 'w']);
                }
                return Some(Direction::SW);
            }
            if c0 == 'n' && c1 == 'w' {
                proof {
                    assert(value@ =~= seq!['n', 'w']);
                }
                return Some(Direction::NW);
            }
            if c0 == 'n' && c1 == 'e' {
                proof {
                    assert(value@ =~= seq!['n', 'e']);
                }
                return Some(Direction::NE);
            }
            proof {
                lemma_not_any_direction(value@);
            }
            return None;
        }
        proof {
            lemma_not_any_direction(value@);
        }
        None
    }

    /// Read a run-together walk such as `esenee` greedily into directions.
    pub fn vector_from_string(values: &str) -> (r: Vec<Direction>)
        ensures
            r@ == spec_walk(values@, 0, Seq::empty()),
    {
        let ghost s = values@;
        let n = values.unicode_len();
        let mut r: Vec<Direction> = Vec::new();
        let mut cur: Vec<char> = Vec::new();
        let mut i: usize = 0;
        proof {
            assert(r@ + spec_walk(s, 0, cur@) =~= spec_walk(s, 0, Seq::empty()));
        }
        while i < n
            invariant
                i <= n,
                n == s.len(),
                s == values@,
                spec_walk(s, 0, Seq::empty()) == r@ + spec_walk(s, i as int, cur@),
            decreases n - i,
        {
            let c = values.get_char(i);
            cur.push(c);
            let d = direction_of_chars(&cur);
            match d {
                Some(dir) => {
                    let ghost prev = r@;
                    r.push(dir);
                    cur.clear();
                    proof {
                        assert(prev + (seq![dir] + spec_walk(s, i + 1, Seq::empty()))
                            =~= (prev + seq![dir]) + spec_walk(s, i + 1, Seq::empty()));
                    }
                },
                None => {},
            }
            i = i + 1;
        }
        proof {
            assert(spec_walk(s, n as int, cur@) =~= Seq::<Direction>::empty());
            assert(r@ + Seq::<Direction>::empty() =~= r@);
        }
        r
    }
}

/// A word of length other than one or two names no direction.
proof fn lemma_not_any_direction(s: Seq<char>)
    requires
        (s.len() != 1 && s.len() != 2) || (s.len() == 1 && s[0] != 'e' && s[0] != 'w') || (s.len()
            == 2 && !(s[0] == 's' && s[1] == 'e') && !(s[0] == 's' && s[1] == 'w') && !(s[0] == 'n'
            && s[1] == 'w') && !(s[0] == 'n' && s[1] == 'e')),
    ensures
        spec_direction_of(s) is None,
{
}

/// The direction a gathered word names.
fn direction_of_chars(cur: &Vec<char>) -> (r: Option<Direction>)
    ensures
        r == spec_direction_of(cur@),
{
    let n = cur.len();
    if n == 1 {
        let c0 = cur[0];
        if c0 == 'e' {
            proof {
                assert(cur@ =~= seq!['e']);
            }
            return Some(Direction::E);
        }
        if c0 == 'w' {
            proof {
                assert(cur@ =~= seq!['w']);
            }
            return Some(Direction::W);
        }
        proof {
            lemma_not_any_direction(cur@);
        }
        return None;
    }
    if n == 2 {
        let c0 = cur[0];
        let c1 = cur[1];
        if c0 == 's' && c1 == 'e' {
            proof {
                assert(cur@ =~= seq!['s', 'e']);
            }
            return Some(Direction::SE);
        }
        if c0 == 's' && c1 == 'w' {
            proof {
                assert(cur@ =~= seq!['s', 'w']);
            }
            return Some(Direction::SW);
        }
        if c0 == 'n' && c1 == 'w' {
            proof {
                assert(cur@ =~= seq!['n', 'w']);
            }
            return Some(Direction::NW);
        }
        if c0 == 'n' && c1 == 'e' {
            proof {
                assert(cur@ =~= seq!['n', 'e']);
            }
            return Some(Direction::NE);
        }
        proof {
            lemma_not_any_direction(cur@);
        }
        return None;
    }
    proof {
        lemma_not_any_direction(cur@);
    }
    None
}

/// A hex cell in axial coordinates.
#[derive(Clone, Copy, PartialEq, Eq, Structural, Debug)]
pub struct Position {
    pub x: i32,
    pub y: i32,
}

/// Where one hex step leads.
pub open spec fn spec_step(p: Position, d: Direction) -> (int, int) {
    match d {
        Direction::NW => (p.x - 1, p.y + 1),
        Direction::NE => (p.x as int, p.y + 1),
        Direction::W => (p.x - 1, p.y as int),
        Direction::E => (p.x + 1, p.y as int),
        Direction::SW => (p.x as int, p.y - 1),
        Direction::SE => (p.x + 1, p.y - 1),
    }
}

/// Where a whole walk from `p` ends.
pub open spec fn spec_follow(p: (int, int), ds: Seq<Direction>) -> (int, int)
    decreases ds.len(),
{
    if ds.len() == 0 {
        p
    } else {
        let q = spec_follow(p, ds.drop_last());
        match ds.last() {
            Direction::NW => (q.0 - 1, q.1 + 1),
            Direction::NE => (q.0, q.1 + 1),
            Direction::W => (q.0 - 1, q.1),
            Direction::E => (q.0 + 1, q.1),
            Direction::SW => (q.0, q.1 - 1),
            Direction::SE => (q.0 + 1, q.1 - 1),
        }
    }
}

impl Position {
    pub fn new(x: i32, y: i32) -> (r: Position)
        ensures
            r == (Position { x, y }),
    {
        Position { x, y }
    }

    /// One step in a hex direction.
    pub fn next(&self, dir: &Direction) -> (r: Position)
        requires
            i32::MIN < self.x < i32::MAX,
            i32::MIN < self.y < i32::MAX,
        ensures
            (r.x as int, r.y as int) == spec_step(*self, *dir),
    {
        match dir {
            Direction::NW => Position::new(self.x - 1, self.y + 1),
            Direction::NE => Position::new(self.x, self.y + 1),
            Direction::W => Position::new(self.x - 1, self.y),
            Direction::E => Position::new(self.x + 1, self.y),
            Direction::SW => Position::new(self.x, self.y - 1),
            Direction::SE => Position::new(self.x + 1, self.y - 1),
        }
    }

    /// Follow a whole walk.
    pub fn follow(&self, directions: &Vec<Direction>) -> (r: Position)
        requires
            vstd::math::abs(self.x as int) + directions@.len() < i32::MAX,
            vstd::math::abs(self.y as int) + directions@.len() < i32::MAX,
        ensures
            (r.x as int, r.y as int) == spec_follow((self.x as int, self.y as int), directions@),
    {
        let mut current = Position { x: self.x, y: self.y };
        let mut i: usize = 0;
        let n = directions.len();
        proof {
            assert(directions@.subrange(0, 0) =~= Seq::<Direction>::empty());
        }
        while i < n
            invariant
                i <= n,
                n == directions@.len(),
                vstd::math::abs(self.x as int) + n < i32::MAX,
                vstd::math::abs(self.y as int) + n < i32::MAX,
                vstd::math::abs(current.x as int) <= vstd::math::abs(self.x as int) + i,
                vstd::math::abs(current.y as int) <= vstd::math::abs(self.y as int) + i,
                (current.x as int, current.y as int) == spec_follow(
                    (self.x as int, self.y as int),
                    directions@.subrange(0, i as int),
                ),
            decreases n - i,
        {
            proof {
                assert(directions@.subrange(0, i + 1).drop_last() =~= directions@.subrange(
                    0,
                    i as int,
                ));
                assert(directions@.subrange(0, i + 1).last() == directions@[i as int]);
            }
            current = current.next(&directions[i]);
            i = i + 1;
        }
        proof {
            assert(directions@.subrange(0, n as int) =~= directions@);
        }
        current
    }

    /// The six neighbouring cells.
    pub fn neighbours(&self) -> (r: Vec<Position>)
        requires
            i32::MIN < self.x < i32::MAX,
            i32::MIN < self.y < i32::MAX,
        ensures
            r@.len() == 6,
            forall|k: int|
                0 <= k < 6 ==> ((#[trigger] r@[k]).x as int, r@[k].y as int) == spec_step(
                    *self,
                    seq![
                        Direction::NW,
                        Direction::NE,
                        Direction::W,
                        Direction::E,
                        Direction::SW,
                        Direction::SE,
                    ][k],
                ),
    {
        let mut r: Vec<Position> = Vec::new();
        r.push(self.next(&Direction::NW));
        r.push(self.next(&Direction::NE));
        r.push(self.next(&Direction::W));
        r.push(self.next(&Direction::E));
        r.push(self.next(&Direction::SW));
        r.push(self.next(&Direction::SE));
        r
    }
}


/// The hex floor: per visited cell, whether it shows black. Cells never
/// visited are white; absence means white.
pub struct Floor {
    pub cells: Vec<(Position, bool)>,
}

pub open spec fn has_cell(s: Seq<(Position, bool)>, p: Position) -> bool {
    exists|i: int| 0 <= i < s.len() && (#[trigger] s[i]).0 == p
}

/// The colour a cell shows: its stored value, or white when untouched.
pub open spec fn floor_colour(s: Seq<(Position, bool)>, p: Position) -> bool {
    if has_cell(s, p) {
        s[choose|i: int| 0 <= i < s.len() && (#[trigger] s[i]).0 == p].1
    } else {
        false
    }
}

pub open spec fn cells_distinct(s: Seq<(Position, bool)>) -> bool {
    forall|i: int, j: int| 0 <= i < j < s.len() ==> (#[trigger] s[i]).0 != (#[trigger] s[j]).0
}

/// With distinct cells, any entry for `p` carries the cell's colour.
proof fn lemma_colour_at(s: Seq<(Position, bool)>, p: Position, i: int)
    requires
        cells_distinct(s),
        0 <= i < s.len(),
        s[i].0 == p,
    ensures
        floor_colour(s, p) == s[i].1,
{
    let j = choose|j: int| 0 <= j < s.len() && (#[trigger] s[j]).0 == p;
    if i < j {
        assert(s[i].0 != s[j].0);
    } else if j < i {
        assert(s[j].0 != s[i].0);
    }
}

/// How many of the first `k` walks end on cell `p`.
pub open spec fn flips_upto(dirs: Seq<Vec<Direction>>, p: (int, int), k: int) -> int
    decreases k,
{
    if k <= 0 {
        0
    } else {
        flips_upto(dirs, p, k - 1) + (if spec_follow((0, 0), dirs[k - 1]@) == p {
            1int
        } else {
            0int
        })
    }
}

proof fn lemma_flips_nonneg(dirs: Seq<Vec<Direction>>, p: (int, int), k: int)
    ensures
        flips_upto(dirs, p, k) >= 0,
    decreases k,
{
    if k > 0 {
        lemma_flips_nonneg(dirs, p, k - 1);
    }
}

/// Entries showing the wanted colour.
pub open spec fn count_colour(s: Seq<(Position, bool)>, black: bool) -> int
    decreases s.len(),
{
    if s.len() == 0 {
        0
    } else {
        count_colour(s.drop_last(), black) + (if s.last().1 == black {
            1int
        } else {
            0int
        })
    }
}

impl Floor {
    pub open spec fn wf(&self) -> bool {
        cells_distinct(self.cells@)
    }

    /// Lay the floor: each walk flips the tile it ends on, so a cell shows
    /// black exactly when an odd number of walks end there; every cell some
    /// walk ends on has an entry, flipped-back-to-white ones included.
    pub fn create_map(directions: &Vec<Vec<Direction>>) -> (r: Floor)
        requires
            forall|k: int| 0 <= k < directions@.len() ==> (#[trigger] directions@[k])@.len()
                < 0x4000_0000,
        ensures
            r.wf(),
            forall|p: Position|
                floor_colour(r.cells@, p) == (flips_upto(
                    directions@,
                    (p.x as int, p.y as int),
                    directions@.len() as int,
                ) % 2 == 1),
            forall|p: Position|
                has_cell(r.cells@, p) == (flips_upto(
                    directions@,
                    (p.x as int, p.y as int),
                    directions@.len() as int,
                ) > 0),
    {
        let ghost ds = directions@;
        let root = Position::new(0, 0);
        let mut cells: Vec<(Position, bool)> = Vec::new();
        let mut i: usize = 0;
        let n = directions.len();
        while i < n
            invariant
                i <= n,
                n == ds.len(),
                ds == directions@,
                root.x == 0 && root.y == 0,
                forall|k: int| 0 <= k < ds.len() ==> (#[trigger] ds[k])@.len() < 0x4000_0000,
                cells_distinct(cells@),
                forall|p: Position|
                    floor_colour(cells@, p) == (flips_upto(
                        ds,
                        (p.x as int, p.y as int),
                        i as int,
                    ) % 2 == 1),
                forall|p: Position|
                    has_cell(cells@, p) == (flips_upto(ds, (p.x as int, p.y as int), i as int)
                        > 0),
            decreases n - i,
        {
            proof {
                assert(ds[i as int]@.len() < 0x4000_0000);
            }
            let end = root.follow(&directions[i]);
            proof {
                assert(spec_follow((0, 0), ds[i as int]@) == (end.x as int, end.y as int));
            }
            let ghost prev = cells@;
            let mut j: usize = 0;
            let m = cells.len();
            let mut found = false;
            while j < m && !found
                invariant
                    j <= m,
                    m == cells@.len(),
                    cells@ == prev,
                    !found ==> forall|k: int| 0 <= k < j ==> (#[trigger] prev[k]).0 != end,
                    found ==> j >= 1 && j - 1 < prev.len() && prev[j - 1].0 == end,
                decreases m - j,
            {
                if cells[j].0.x == end.x && cells[j].0.y == end.y {
                    found = true;
                }
                j = j + 1;
            }
            if found {
                let v = cells[j - 1].1;
                proof {
                    lemma_colour_at(prev, end, j - 1);
                }
                let e = cells[j - 1].0;
                cells.set(j - 1, (e, !v));
                proof {
                    let s1 = cells@;
                    let at = j - 1;
                    assert(s1 == prev.update(at as int, (e, !v)));
                    assert(cells_distinct(s1));
                    lemma_colour_at(s1, end, at as int);
                    assert forall|p: Position|
                        #![trigger floor_colour(s1, p)]
                        floor_colour(s1, p) == (if p == end {
                            !floor_colour(prev, p)
                        } else {
                            floor_colour(prev, p)
                        }) && has_cell(s1, p) == has_cell(prev, p) by {
                        if p != end {
                            if has_cell(prev, p) {
                                let k = choose|k: int|
                                    0 <= k < prev.len() && (#[trigger] prev[k]).0 == p;
                                assert(s1[k].0 == p);
                                lemma_colour_at(prev, p, k);
                                lemma_colour_at(s1, p, k);
                            } else {
                                if has_cell(s1, p) {
                                    let k = choose|k: int|
                                        0 <= k < s1.len() && (#[trigger] s1[k]).0 == p;
                                    assert(prev[k].0 == p);
                                }
                            }
                        } else {
                            assert(has_cell(prev, p)) by {
                                assert(prev[at as int].0 == p);
                            }
                            assert(has_cell(s1, p)) by {
                                assert(s1[at as int].0 == p);
                            }
                        }
                    }
                }
            } else {
                proof {
                    assert(!has_cell(prev, end)) by {
                        if has_cell(prev, end) {
                            let k = choose|k: int|
                                0 <= k < prev.len() && (#[trigger] prev[k]).0 == end;
                            assert(prev[k].0 != end);
                        }
                    }
                    assert(floor_colour(prev, end) == false);
                }
                cells.push((end, true));
                proof {
                    let s1 = cells@;
                    assert forall|a: int, b: int|
                        0 <= a < b < s1.len() implies (#[trigger] s1[a]).0 != (
                    #[trigger] s1[b]).0 by {
                        if b < prev.len() {
                            assert(s1[a] == prev[a] && s1[b] == prev[b]);
                        } else {
                            assert(s1[a] == prev[a] && s1[b].0 == end);
                            assert(prev[a].0 != end);
                        }
                    }
                    assert(s1[s1.len() - 1].0 == end);
                    lemma_colour_at(s1, end, s1.len() - 1);
                    assert forall|p: Position|
                        #![trigger floor_colour(s1, p)]
                        floor_colour(s1, p) == (if p == end {
                            !floor_colour(prev, p)
                        } else {
                            floor_colour(prev, p)
                        }) && has_cell(s1, p) == (has_cell(prev, p) || p == end) by {
                        if p != end {
                            if has_cell(prev, p) {
                                let k = choose|k: int|
                                    0 <= k < prev.len() && (#[trigger] prev[k]).0 == p;
                                assert(s1[k].0 == p);
                                lemma_colour_at(prev, p, k);
                                lemma_colour_at(s1, p, k);
                            } else {
                                if has_cell(s1, p) {
                                    let k = choose|k: int|
                                        0 <= k < s1.len() && (#[trigger] s1[k]).0 == p;
                                    assert(k < prev.len());
                                    assert(prev[k].0 == p);
                                }
                            }
                        }
                    }
                }
            }
            proof {
                assert forall|p: Position|
                    #![trigger floor_colour(cells@, p)]
                    floor_colour(cells@, p) == (flips_upto(
                        ds,
                        (p.x as int, p.y as int),
                        i as int + 1,
                    ) % 2 == 1) by {
                    lemma_flips_nonneg(ds, (p.x as int, p.y as int), i as int);
                    assert(flips_upto(ds, (p.x as int, p.y as int), i as int + 1) == flips_upto(
                        ds,
                        (p.x as int, p.y as int),
                        i as int,
                    ) + (if spec_follow((0, 0), ds[i as int]@) == (p.x as int, p.y as int) {
                        1int
                    } else {
                        0int
                    }));
                    if p == end {
                        assert(spec_follow((0, 0), ds[i as int]@) == (p.x as int, p.y as int));
                    } else {
                        assert(spec_follow((0, 0), ds[i as int]@) != (p.x as int, p.y as int));
                    }
                }
                assert forall|p: Position|
                    #![trigger has_cell(cells@, p)]
                    has_cell(cells@, p) == (flips_upto(
                        ds,
                        (p.x as int, p.y as int),
                        i as int + 1,
                    ) > 0) by {
                    lemma_flips_nonneg(ds, (p.x as int, p.y as int), i as int);
                    assert(flips_upto(ds, (p.x as int, p.y as int), i as int + 1) == flips_upto(
                        ds,
                        (p.x as int, p.y as int),
                        i as int,
                    ) + (if spec_follow((0, 0), ds[i as int]@) == (p.x as int, p.y as int) {
                        1int
                    } else {
                        0int
                    }));
                    if p == end {
                        assert(spec_follow((0, 0), ds[i as int]@) == (p.x as int, p.y as int));
                        assert(has_cell(cells@, p));
                    } else {
                        assert(spec_follow((0, 0), ds[i as int]@) != (p.x as int, p.y as int));
                        assert(floor_colour(cells@, p) == floor_colour(prev, p));
                    }
                }
            }
            i = i + 1;
        }
        Floor { cells }
    }

    /// How many stored cells show the wanted colour.
    pub fn count(&self, black: bool) -> (r: usize)
        ensures
            r == count_colour(self.cells@, black),
    {
        let ghost s = self.cells@;
        let mut r: usize = 0;
        let mut i: usize = 0;
        let n = self.cells.len();
        while i < n
            invariant
                i <= n,
                n == s.len(),
                s == self.cells@,
                r <= i,
                r == count_colour(s.subrange(0, i as int), black),
            decreases n - i,
        {
            proof {
                assert(s.subrange(0, i + 1).drop_last() =~= s.subrange(0, i as int));
                assert(s.subrange(0, i + 1).last() == s[i as int]);
            }
            if self.cells[i].1 == black {
                r = r + 1;
            }
            i = i + 1;
        }
        proof {
            assert(s.subrange(0, n as int) =~= s);
        }
        r
    }

    /// How many of the six neighbouring cells show black.
    pub fn black_neighbours(&self, position: &Position) -> (r: usize)
        requires
            self.wf(),
            i32::MIN < position.x < i32::MAX,
            i32::MIN < position.y < i32::MAX,
        ensures
            r == spec_black_neighbours(self.cells@, position.x as int, position.y as int),
    {
        let ns = position.neighbours();
        let mut r: usize = 0;
        let mut k: usize = 0;
        while k < 6
            invariant
                k <= 6,
                ns@.len() == 6,
                self.wf(),
                r <= k,
                r == count_colour_list(self.cells@, ns@.subrange(0, k as int)),
            decreases 6 - k,
        {
            proof {
                assert(ns@.subrange(0, k + 1).drop_last() =~= ns@.subrange(0, k as int));
                assert(ns@.subrange(0, k + 1).last() == ns@[k as int]);
            }
            if self.lookup(&ns[k]) {
                r = r + 1;
            }
            k = k + 1;
        }
        proof {
            let s = self.cells@;
            let p = *position;
            assert(ns@[0] == (Position { x: (p.x - 1) as i32, y: (p.y + 1) as i32 }));
            assert(ns@[1] == (Position { x: p.x, y: (p.y + 1) as i32 }));
            assert(ns@[2] == (Position { x: (p.x - 1) as i32, y: p.y }));
            assert(ns@[3] == (Position { x: (p.x + 1) as i32, y: p.y }));
            assert(ns@[4] == (Position { x: p.x, y: (p.y - 1) as i32 }));
            assert(ns@[5] == (Position { x: (p.x + 1) as i32, y: (p.y - 1) as i32 }));
            assert(ns@.subrange(0, 0) =~= Seq::<Position>::empty());
            assert(ns@.subrange(0, 1).drop_last() =~= ns@.subrange(0, 0));
            assert(ns@.subrange(0, 1).last() == ns@[0]);
            assert(ns@.subrange(0, 2).drop_last() =~= ns@.subrange(0, 1));
            assert(ns@.subrange(0, 2).last() == ns@[1]);
            assert(ns@.subrange(0, 3).drop_last() =~= ns@.subrange(0, 2));
            assert(ns@.subrange(0, 3).last() == ns@[2]);
            assert(ns@.subrange(0, 4).drop_last() =~= ns@.subrange(0, 3));
            assert(ns@.subrange(0, 4).last() == ns@[3]);
            assert(ns@.subrange(0, 5).drop_last() =~= ns@.subrange(0, 4));
            assert(ns@.subrange(0, 5).last() == ns@[4]);
            assert(ns@.subrange(0, 6).drop_last() =~= ns@.subrange(0, 5));
            assert(ns@.subrange(0, 6).last() == ns@[5]);
            assert(count_colour_list(s, ns@.subrange(0, 0)) == 0);
            assert(count_colour_list(s, ns@.subrange(0, 1)) == count_colour_list(
                s,
                ns@.subrange(0, 0),
            ) + (if floor_colour(s, ns@[0]) {
                1int
            } else {
                0int
            }));
            assert(count_colour_list(s, ns@.subrange(0, 2)) == count_colour_list(
                s,
                ns@.subrange(0, 1),
            ) + (if floor_colour(s, ns@[1]) {
                1int
            } else {
                0int
            }));
            assert(count_colour_list(s, ns@.subrange(0, 3)) == count_colour_list(
                s,
                ns@.subrange(0, 2),
            ) + (if floor_colour(s, ns@[2]) {
                1int
            } else {
                0int
            }));
            assert(count_colour_list(s, ns@.subrange(0, 4)) == count_colour_list(
                s,
                ns@.subrange(0, 3),
            ) + (if floor_colour(s, ns@[3]) {
                1int
            } else {
                0int
            }));
            assert(count_colour_list(s, ns@.subrange(0, 5)) == count_colour_list(
                s,
                ns@.subrange(0, 4),
            ) + (if floor_colour(s, ns@[4]) {
                1int
            } else {
                0int
            }));
            assert(count_colour_list(s, ns@.subrange(0, 6)) == count_colour_list(
                s,
                ns@.subrange(0, 5),
            ) + (if floor_colour(s, ns@[5]) {
                1int
            } else {
                0int
            }));
            lemma_colour_xy(s, Position { x: (p.x - 1) as i32, y: (p.y + 1) as i32 });
            lemma_colour_xy(s, Position { x: p.x, y: (p.y + 1) as i32 });
            lemma_colour_xy(s, Position { x: (p.x - 1) as i32, y: p.y });
            lemma_colour_xy(s, Position { x: (p.x + 1) as i32, y: p.y });
            lemma_colour_xy(s, Position { x: p.x, y: (p.y - 1) as i32 });
            lemma_colour_xy(s, Position { x: (p.x + 1) as i32, y: (p.y - 1) as i32 });
        }
        r
    }

    /// The colour of one cell.
    fn lookup(&self, p: &Position) -> (r: bool)
        requires
            self.wf(),
        ensures
            r == floor_colour(self.cells@, *p),
    {
        let n = self.cells.len();
        let mut i: usize = 0;
        while i < n
            invariant
                i <= n,
                n == self.cells@.len(),
                self.wf(),
                forall|k: int| 0 <= k < i ==> (#[trigger] self.cells@[k]).0 != *p,
            decreases n - i,
        {
            if self.cells[i].0.x == p.x && self.cells[i].0.y == p.y {
                proof {
                    lemma_colour_at(self.cells@, *p, i as int);
                }
                return self.cells[i].1;
            }
            i = i + 1;
        }
        proof {
            assert(!has_cell(self.cells@, *p)) by {
                if has_cell(self.cells@, *p) {
                    let k = choose|k: int|
                        0 <= k < self.cells@.len() && (#[trigger] self.cells@[k]).0 == *p;
                    assert(self.cells@[k].0 != *p);
                }
            }
        }
        false
    }
}

/// How many of the listed cells show black.
pub open spec fn count_colour_list(s: Seq<(Position, bool)>, ps: Seq<Position>) -> int
    decreases ps.len(),
{
    if ps.len() == 0 {
        0
    } else {
        count_colour_list(s, ps.drop_last()) + (if floor_colour(s, ps.last()) {
            1int
        } else {
            0int
        })
    }
}


/// Whether a cell entry sits at the given coordinates.
pub open spec fn has_xy(s: Seq<(Position, bool)>, x: int, y: int) -> bool {
    exists|i: int| 0 <= i < s.len() && (#[trigger] s[i]).0.x == x && s[i].0.y == y
}

/// The colour at the given coordinates: the stored value, or white.
pub open spec fn colour_xy(s: Seq<(Position, bool)>, x: int, y: int) -> bool {
    if has_xy(s, x, y) {
        s[choose|i: int| 0 <= i < s.len() && (#[trigger] s[i]).0.x == x && s[i].0.y == y].1
    } else {
        false
    }
}

/// Both colour views agree.
proof fn lemma_colour_xy(s: Seq<(Position, bool)>, p: Position)
    requires
        cells_distinct(s),
    ensures
        colour_xy(s, p.x as int, p.y as int) == floor_colour(s, p),
        has_xy(s, p.x as int, p.y as int) == has_cell(s, p),
{
    if has_cell(s, p) {
        let i = choose|i: int| 0 <= i < s.len() && (#[trigger] s[i]).0 == p;
        assert(s[i].0.x == p.x as int && s[i].0.y == p.y as int);
        lemma_colour_at(s, p, i);
        let j = choose|j: int|
            0 <= j < s.len() && (#[trigger] s[j]).0.x == p.x as int && s[j].0.y == p.y as int;
        assert(s[j].0 == p);
        if i < j {
            assert(s[i].0 != s[j].0);
        } else if j < i {
            assert(s[j].0 != s[i].0);
        }
    } else {
        if has_xy(s, p.x as int, p.y as int) {
            let j = choose|j: int|
                0 <= j < s.len() && (#[trigger] s[j]).0.x == p.x as int && s[j].0.y
                    == p.y as int;
            assert(s[j].0 == p);
        }
    }
}

/// How many of the six cells around the given coordinates show black.
pub open spec fn spec_black_neighbours(s: Seq<(Position, bool)>, x: int, y: int) -> int {
    (if colour_xy(s, x - 1, y + 1) {
        1int
    } else {
        0int
    }) + (if colour_xy(s, x, y + 1) {
        1int
    } else {
        0int
    }) + (if colour_xy(s, x - 1, y) {
        1int
    } else {
        0int
    }) + (if colour_xy(s, x + 1, y) {
        1int
    } else {
        0int
    }) + (if colour_xy(s, x, y - 1) {
        1int
    } else {
        0int
    }) + (if colour_xy(s, x + 1, y - 1) {
        1int
    } else {
        0int
    })
}

/// The daily rule: a black cell flips back to white with no or more than
/// two black neighbours; a white cell flips to black with exactly two.
pub open spec fn flip_rule(s: Seq<(Position, bool)>, x: int, y: int) -> bool {
    ||| (colour_xy(s, x, y) && (spec_black_neighbours(s, x, y) == 0 || spec_black_neighbours(
        s,
        x,
        y,
    ) > 2))
    ||| (!colour_xy(s, x, y) && spec_black_neighbours(s, x, y) == 2)
}

/// The cells a generation looks at: the black ones and every cell next to
/// a black one; everything else keeps its colour untouched.
pub open spec fn considered(s: Seq<(Position, bool)>, x: int, y: int) -> bool {
    colour_xy(s, x, y) || spec_black_neighbours(s, x, y) > 0
}

/// Whether the list holds the given coordinates.
pub open spec fn cands_has(c: Seq<Position>, x: int, y: int) -> bool {
    exists|k: int| 0 <= k < c.len() && (#[trigger] c[k]).x == x && c[k].y == y
}

/// Add a cell to the work list unless it is already there.
fn push_if_absent(cands: &mut Vec<Position>, p: Position)
    requires
        old(cands)@.no_duplicates(),
    ensures
        forall|x: int, y: int|
            #![trigger cands_has(final(cands)@, x, y)]
            cands_has(final(cands)@, x, y) == (cands_has(old(cands)@, x, y) || (p.x == x && p.y
                == y)),
        final(cands)@.no_duplicates(),
        forall|k: int|
            0 <= k < final(cands)@.len() ==> (old(cands)@.contains(#[trigger] final(cands)@[k])
                || final(cands)@[k] == p),
{
    let ghost prev = cands@;
    let n = cands.len();
    let mut i: usize = 0;
    while i < n
        invariant
            i <= n,
            n == prev.len(),
            cands@ == prev,
            prev == old(cands)@,
            prev.no_duplicates(),
            forall|k: int| 0 <= k < i ==> (#[trigger] prev[k]) != p,
        decreases n - i,
    {
        if cands[i].x == p.x && cands[i].y == p.y {
            proof {
                assert forall|x: int, y: int|
                    #![trigger cands_has(cands@, x, y)]
                    cands_has(cands@, x, y) == (cands_has(prev, x, y) || (p.x == x && p.y
                        == y)) by {
                    if p.x == x && p.y == y {
                        assert(cands@[i as int].x == x && cands@[i as int].y == y);
                    }
                }
            }
            return ;
        }
        i = i + 1;
    }
    proof {
        assert(!prev.contains(p));
    }
    cands.push(p);
    proof {
        assert forall|x: int, y: int|
            #![trigger cands_has(cands@, x, y)]
            cands_has(cands@, x, y) == (cands_has(prev, x, y) || (p.x == x && p.y == y)) by {
            if cands_has(cands@, x, y) {
                let k = choose|k: int|
                    0 <= k < cands@.len() && (#[trigger] cands@[k]).x == x && cands@[k].y == y;
                if k < prev.len() {
                    assert(prev[k].x == x && prev[k].y == y);
                }
            }
            if cands_has(prev, x, y) {
                let k = choose|k: int|
                    0 <= k < prev.len() && (#[trigger] prev[k]).x == x && prev[k].y == y;
                assert(cands@[k].x == x && cands@[k].y == y);
            }
            if p.x == x && p.y == y {
                assert(cands@[cands@.len() - 1].x == x && cands@[cands@.len() - 1].y == y);
            }
        }
    }
}

/// Flip the colour shown at one cell, adding the entry if it is new.
fn toggle_cell(cells: &mut Vec<(Position, bool)>, p: Position)
    requires
        cells_distinct(old(cells)@),
    ensures
        cells_distinct(final(cells)@),
        forall|x: int, y: int|
            #![trigger colour_xy(final(cells)@, x, y)]
            colour_xy(final(cells)@, x, y) == (if p.x == x && p.y == y {
                !colour_xy(old(cells)@, x, y)
            } else {
                colour_xy(old(cells)@, x, y)
            }),
        forall|x: int, y: int|
            #![trigger has_xy(final(cells)@, x, y)]
            has_xy(final(cells)@, x, y) == (has_xy(old(cells)@, x, y) || (p.x == x && p.y == y)),
{
    let ghost prev = cells@;
    let n = cells.len();
    let mut i: usize = 0;
    while i < n
        invariant
            i <= n,
            n == prev.len(),
            cells@ == prev,
            prev == old(cells)@,
            cells_distinct(prev),
            forall|k: int| 0 <= k < i ==> (#[trigger] prev[k]).0 != p,
        decreases n - i,
    {
        if cells[i].0.x == p.x && cells[i].0.y == p.y {
            let v = cells[i].1;
            let e = cells[i].0;
            cells.set(i, (e, !v));
            proof {
                let s1 = cells@;
                assert(s1 == prev.update(i as int, (e, !v)));
                assert(cells_distinct(s1));
                assert forall|x: int, y: int|
                    #![trigger colour_xy(s1, x, y)]
                    colour_xy(s1, x, y) == (if p.x == x && p.y == y {
                        !colour_xy(prev, x, y)
                    } else {
                        colour_xy(prev, x, y)
                    }) by {
                    lemma_toggle_update(prev, s1, i as int, p, x, y);
                }
                assert forall|x: int, y: int|
                    #![trigger has_xy(s1, x, y)]
                    has_xy(s1, x, y) == (has_xy(prev, x, y) || (p.x == x && p.y == y)) by {
                    if has_xy(s1, x, y) {
                        let k = choose|k: int|
                            0 <= k < s1.len() && (#[trigger] s1[k]).0.x == x && s1[k].0.y == y;
                        assert(prev[k].0.x == x && prev[k].0.y == y);
                    }
                    if has_xy(prev, x, y) {
                        let k = choose|k: int|
                            0 <= k < prev.len() && (#[trigger] prev[k]).0.x == x && prev[k].0.y
                                == y;
                        assert(s1[k].0.x == x && s1[k].0.y == y);
                    }
                    if p.x == x && p.y == y {
                        assert(s1[i as int].0.x == x && s1[i as int].0.y == y);
                    }
                }
            }
            return ;
        }
        i = i + 1;
    }
    proof {
        assert(!has_xy(prev, p.x as int, p.y as int)) by {
            if has_xy(prev, p.x as int, p.y as int) {
                let k = choose|k: int|
                    0 <= k < prev.len() && (#[trigger] prev[k]).0.x == p.x as int && prev[k].0.y
                        == p.y as int;
                assert(prev[k].0 == p);
                assert(prev[k].0 != p);
            }
        }
    }
    cells.push((p, true));
    proof {
        let s1 = cells@;
        assert forall|a: int, b: int|
            0 <= a < b < s1.len() implies (#[trigger] s1[a]).0 != (#[trigger] s1[b]).0 by {
            if b < prev.len() {
                assert(s1[a] == prev[a] && s1[b] == prev[b]);
            } else {
                assert(s1[a] == prev[a] && s1[b].0 == p);
                assert(prev[a].0 != p);
            }
        }
        assert forall|x: int, y: int|
            #![trigger has_xy(s1, x, y)]
            has_xy(s1, x, y) == (has_xy(prev, x, y) || (p.x == x && p.y == y)) by {
            if has_xy(s1, x, y) {
                let k = choose|k: int|
                    0 <= k < s1.len() && (#[trigger] s1[k]).0.x == x && s1[k].0.y == y;
                if k < prev.len() {
                    assert(prev[k].0.x == x && prev[k].0.y == y);
                }
            }
            if has_xy(prev, x, y) {
                let k = choose|k: int|
                    0 <= k < prev.len() && (#[trigger] prev[k]).0.x == x && prev[k].0.y == y;
                assert(s1[k].0.x == x && s1[k].0.y == y);
            }
            if p.x == x && p.y == y {
                assert(s1[s1.len() - 1].0.x == x && s1[s1.len() - 1].0.y == y);
            }
        }
        assert forall|x: int, y: int|
            #![trigger colour_xy(s1, x, y)]
            colour_xy(s1, x, y) == (if p.x == x && p.y == y {
                !colour_xy(prev, x, y)
            } else {
                colour_xy(prev, x, y)
            }) by {
            if p.x == x && p.y == y {
                assert(s1[s1.len() - 1].0.x == x && s1[s1.len() - 1].0.y == y);
                assert(has_xy(s1, x, y));
                let k = choose|k: int|
                    0 <= k < s1.len() && (#[trigger] s1[k]).0.x == x && s1[k].0.y == y;
                if k < prev.len() {
                    assert(prev[k].0 == p);
                    assert(has_xy(prev, p.x as int, p.y as int));
                } else {
                    assert(s1[k].1 == true);
                }
            } else {
                if has_xy(s1, x, y) {
                    let k = choose|k: int|
                        0 <= k < s1.len() && (#[trigger] s1[k]).0.x == x && s1[k].0.y == y;
                    assert(k < prev.len());
                    assert(prev[k].0.x == x && prev[k].0.y == y);
                    lemma_lookup_same(prev, s1, k, x, y);
                } else {
                    if has_xy(prev, x, y) {
                        let k = choose|k: int|
                            0 <= k < prev.len() && (#[trigger] prev[k]).0.x == x && prev[k].0.y
                                == y;
                        assert(s1[k].0.x == x && s1[k].0.y == y);
                    }
                }
            }
        }
    }
}

/// Looking up untouched coordinates reads the same entry before and after
/// an update elsewhere or an append.
proof fn lemma_lookup_same(
    prev: Seq<(Position, bool)>,
    s1: Seq<(Position, bool)>,
    k: int,
    x: int,
    y: int,
)
    requires
        cells_distinct(prev),
        cells_distinct(s1),
        0 <= k < prev.len(),
        k < s1.len(),
        prev[k].0.x == x && prev[k].0.y == y,
        s1[k] == prev[k],
    ensures
        colour_xy(prev, x, y) == prev[k].1,
        colour_xy(s1, x, y) == s1[k].1,
{
    let a = choose|a: int| 0 <= a < prev.len() && (#[trigger] prev[a]).0.x == x && prev[a].0.y == y;
    if a != k {
        assert(prev[a].0 != prev[k].0 || prev[k].0 != prev[a].0);
        assert(false);
    }
    let b = choose|b: int| 0 <= b < s1.len() && (#[trigger] s1[b]).0.x == x && s1[b].0.y == y;
    if b != k {
        assert(s1[b].0 != s1[k].0 || s1[k].0 != s1[b].0);
        assert(false);
    }
}

/// One cell's colour flip inside an update keeps every other lookup.
proof fn lemma_toggle_update(
    prev: Seq<(Position, bool)>,
    s1: Seq<(Position, bool)>,
    i: int,
    p: Position,
    x: int,
    y: int,
)
    requires
        cells_distinct(prev),
        cells_distinct(s1),
        0 <= i < prev.len(),
        s1.len() == prev.len(),
        prev[i].0 == p,
        s1[i].0 == p && s1[i].1 == !prev[i].1,
        forall|k: int| 0 <= k < prev.len() && k != i ==> s1[k] == prev[k],
    ensures
        colour_xy(s1, x, y) == (if p.x == x && p.y == y {
            !colour_xy(prev, x, y)
        } else {
            colour_xy(prev, x, y)
        }),
{
    if p.x == x && p.y == y {
        assert(has_xy(prev, x, y)) by {
            assert(prev[i].0.x == x && prev[i].0.y == y);
        }
        assert(has_xy(s1, x, y)) by {
            assert(s1[i].0.x == x && s1[i].0.y == y);
        }
        let a = choose|a: int|
            0 <= a < prev.len() && (#[trigger] prev[a]).0.x == x && prev[a].0.y == y;
        if a != i {
            assert(prev[a].0 != prev[i].0 || prev[i].0 != prev[a].0);
        }
        let b = choose|b: int| 0 <= b < s1.len() && (#[trigger] s1[b]).0.x == x && s1[b].0.y == y;
        if b != i {
            assert(s1[b].0 != s1[i].0 || s1[i].0 != s1[b].0);
        }
    } else {
        if has_xy(prev, x, y) {
            let a = choose|a: int|
                0 <= a < prev.len() && (#[trigger] prev[a]).0.x == x && prev[a].0.y == y;
            assert(a != i);
            assert(s1[a] == prev[a]);
            lemma_lookup_same(s1, prev, a, x, y);
        } else {
            if has_xy(s1, x, y) {
                let b = choose|b: int|
                    0 <= b < s1.len() && (#[trigger] s1[b]).0.x == x && s1[b].0.y == y;
                assert(b != i);
                assert(prev[b].0.x == x && prev[b].0.y == y);
            }
        }
    }
}


/// The coordinates are the cell itself or one of its six neighbours.
pub open spec fn near_cell(p: Position, x: int, y: int) -> bool {
    ||| (p.x == x && p.y == y)
    ||| (x == p.x - 1 && y == p.y + 1)
    ||| (x == p.x && y == p.y + 1)
    ||| (x == p.x - 1 && y == p.y)
    ||| (x == p.x + 1 && y == p.y)
    ||| (x == p.x && y == p.y - 1)
    ||| (x == p.x + 1 && y == p.y - 1)
}

/// Every stored cell lies within `b` of the origin on both axes.
pub open spec fn floor_bounded(s: Seq<(Position, bool)>, b: int) -> bool {
    forall|i: int|
        0 <= i < s.len() ==> -b <= (#[trigger] s[i]).0.x <= b && -b <= s[i].0.y <= b
}

/// The colour an entry gives its own coordinates.
proof fn lemma_entry_colour(s: Seq<(Position, bool)>, j: int)
    requires
        cells_distinct(s),
        0 <= j < s.len(),
    ensures
        colour_xy(s, s[j].0.x as int, s[j].0.y as int) == s[j].1,
        has_xy(s, s[j].0.x as int, s[j].0.y as int),
{
    lemma_colour_at(s, s[j].0, j);
    lemma_colour_xy(s, s[j].0);
}

impl Floor {
    /// One day passes: every black cell and each of its neighbours is
    /// looked at; a black cell with no or more than two black neighbours
    /// flips to white, a white cell with exactly two flips to black, and
    /// every other cell keeps its colour. Counts are judged against the
    /// old floor only.
    pub fn next(&self) -> (r: Floor)
        requires
            self.wf(),
            floor_bounded(self.cells@, 0x4000_0000),
        ensures
            r.wf(),
            forall|x: int, y: int|
                #![trigger colour_xy(r.cells@, x, y)]
                colour_xy(r.cells@, x, y) == (if considered(self.cells@, x, y) && flip_rule(
                    self.cells@,
                    x,
                    y,
                ) {
                    !colour_xy(self.cells@, x, y)
                } else {
                    colour_xy(self.cells@, x, y)
                }),
            forall|x: int, y: int|
                #![trigger has_xy(r.cells@, x, y)]
                has_xy(r.cells@, x, y) == (has_xy(self.cells@, x, y) || (considered(
                    self.cells@,
                    x,
                    y,
                ) && flip_rule(self.cells@, x, y))),
            forall|b: int|
                #[trigger] floor_bounded(self.cells@, b) && 0 <= b ==> floor_bounded(
                    r.cells@,
                    b + 1,
                ),
    {
        let ghost s = self.cells@;
        // the work list: every black cell and its six neighbours
        let mut cands: Vec<Position> = Vec::new();
        let mut i: usize = 0;
        let n = self.cells.len();
        while i < n
            invariant
                i <= n,
                n == s.len(),
                s == self.cells@,
                self.wf(),
                floor_bounded(s, 0x4000_0000),
                cands@.no_duplicates(),
                forall|x: int, y: int|
                    #![trigger cands_has(cands@, x, y)]
                    cands_has(cands@, x, y) <==> exists|j: int|
                        0 <= j < i && (#[trigger] s[j]).1 && near_cell(s[j].0, x, y),
                forall|k: int|
                    0 <= k < cands@.len() ==> -0x4000_0001 <= (#[trigger] cands@[k]).x
                        <= 0x4000_0001 && -0x4000_0001 <= cands@[k].y <= 0x4000_0001,
            decreases n - i,
        {
            let ghost before = cands@;
            let p = self.cells[i].0;
            let black = self.cells[i].1;
            if black {
                proof {
                    assert(-0x4000_0000 <= s[i as int].0.x <= 0x4000_0000 && -0x4000_0000
                        <= s[i as int].0.y <= 0x4000_0000);
                }
                push_if_absent(&mut cands, p);
                push_if_absent(&mut cands, Position::new(p.x - 1, p.y + 1));
                push_if_absent(&mut cands, Position::new(p.x, p.y + 1));
                push_if_absent(&mut cands, Position::new(p.x - 1, p.y));
                push_if_absent(&mut cands, Position::new(p.x + 1, p.y));
                push_if_absent(&mut cands, Position::new(p.x, p.y - 1));
                push_if_absent(&mut cands, Position::new(p.x + 1, p.y - 1));
                proof {
                    assert forall|x: int, y: int|
                        #![trigger cands_has(cands@, x, y)]
                        cands_has(cands@, x, y) <==> (cands_has(before, x, y) || near_cell(
                            s[i as int].0,
                            x,
                            y,
                        )) by {}
                    assert forall|k: int|
                        0 <= k < cands@.len() implies -0x4000_0001 <= (#[trigger] cands@[k]).x
                        <= 0x4000_0001 && -0x4000_0001 <= cands@[k].y <= 0x4000_0001 by {
                        if !before.contains(cands@[k]) {
                            assert(near_cell(s[i as int].0, cands@[k].x as int, cands@[
                                k].y as int));
                        } else {
                            let w = choose|w: int|
                                0 <= w < before.len() && before[w] == cands@[k];
                            assert(-0x4000_0001 <= before[w].x <= 0x4000_0001);
                        }
                    }
                }
            }
            proof {
                assert forall|x: int, y: int|
                    #![trigger cands_has(cands@, x, y)]
                    cands_has(cands@, x, y) <==> exists|j: int|
                        0 <= j < i + 1 && (#[trigger] s[j]).1 && near_cell(s[j].0, x, y) by {
                    if cands_has(cands@, x, y) {
                        if cands_has(before, x, y) {
                            let j = choose|j: int|
                                0 <= j < i && (#[trigger] s[j]).1 && near_cell(s[j].0, x, y);
                            assert(0 <= j < i + 1 && s[j].1 && near_cell(s[j].0, x, y));
                        } else {
                            assert(black && near_cell(s[i as int].0, x, y));
                        }
                    }
                    if exists|j: int|
                        0 <= j < i + 1 && (#[trigger] s[j]).1 && near_cell(s[j].0, x, y) {
                        let j = choose|j: int|
                            0 <= j < i + 1 && (#[trigger] s[j]).1 && near_cell(s[j].0, x, y);
                        if j < i {
                            assert(cands_has(before, x, y));
                            assert(cands_has(cands@, x, y)) by {
                                if black {
                                } else {
                                    assert(cands@ == before);
                                }
                            }
                        } else {
                            assert(black);
                        }
                    }
                }
            }
            i = i + 1;
        }
        // judge every listed cell against the old floor and flip it in a
        // fresh copy
        let mut out_cells: Vec<(Position, bool)> = Vec::new();
        let mut c: usize = 0;
        while c < n
            invariant
                c <= n,
                n == s.len(),
                s == self.cells@,
                out_cells@ == s.subrange(0, c as int),
            decreases n - c,
        {
            out_cells.push(self.cells[c]);
            proof {
                assert(out_cells@ =~= s.subrange(0, c + 1));
            }
            c = c + 1;
        }
        proof {
            assert(out_cells@ =~= s);
        }
        let m = cands.len();
        let mut j: usize = 0;
        while j < m
            invariant
                j <= m,
                m == cands@.len(),
                s == self.cells@,
                self.wf(),
                floor_bounded(s, 0x4000_0000),
                cands@.no_duplicates(),
                forall|x: int, y: int|
                    #![trigger cands_has(cands@, x, y)]
                    cands_has(cands@, x, y) <==> exists|jj: int|
                        0 <= jj < s.len() && (#[trigger] s[jj]).1 && near_cell(s[jj].0, x, y),
                forall|k: int|
                    0 <= k < cands@.len() ==> -0x4000_0001 <= (#[trigger] cands@[k]).x
                        <= 0x4000_0001 && -0x4000_0001 <= cands@[k].y <= 0x4000_0001,
                cells_distinct(out_cells@),
                forall|x: int, y: int|
                    #![trigger colour_xy(out_cells@, x, y)]
                    colour_xy(out_cells@, x, y) == (if cands_has(cands@.subrange(0, j as int), x, y)
                        && flip_rule(s, x, y) {
                        !colour_xy(s, x, y)
                    } else {
                        colour_xy(s, x, y)
                    }),
                forall|x: int, y: int|
                    #![trigger has_xy(out_cells@, x, y)]
                    has_xy(out_cells@, x, y) == (has_xy(s, x, y) || (cands_has(
                        cands@.subrange(0, j as int),
                        x,
                        y,
                    ) && flip_rule(s, x, y))),
                forall|k: int|
                    0 <= k < out_cells@.len() ==> -0x4000_0001 <= (#[trigger] out_cells@[k]).0.x
                        <= 0x4000_0001 && -0x4000_0001 <= out_cells@[k].0.y <= 0x4000_0001,
            decreases m - j,
        {
            let q = cands[j];
            let bn = self.black_neighbours(&q);
            let cur = self.lookup(&q);
            let ghost prev_out = out_cells@;
            proof {
                lemma_colour_xy(s, q);
                assert(bn == spec_black_neighbours(s, q.x as int, q.y as int));
                assert(cur == colour_xy(s, q.x as int, q.y as int));
            }
            if (cur && (bn == 0 || bn > 2)) || (!cur && bn == 2) {
                proof {
                    assert(flip_rule(s, q.x as int, q.y as int));
                }
                toggle_cell(&mut out_cells, q);
            } else {
                proof {
                    assert(!flip_rule(s, q.x as int, q.y as int));
                }
            }
            proof {
                assert(!cands_has(cands@.subrange(0, j as int), q.x as int, q.y as int)) by {
                    if cands_has(cands@.subrange(0, j as int), q.x as int, q.y as int) {
                        let w = choose|w: int|
                            0 <= w < j && (#[trigger] cands@.subrange(0, j as int)[w]).x
                                == q.x as int && cands@.subrange(0, j as int)[w].y == q.y as int;
                        assert(cands@[w] == cands@[j as int]);
                    }
                }
                assert forall|x: int, y: int|
                    #![trigger cands_has(cands@.subrange(0, j as int + 1), x, y)]
                    cands_has(cands@.subrange(0, j as int + 1), x, y) <==> (cands_has(
                        cands@.subrange(0, j as int),
                        x,
                        y,
                    ) || (q.x == x && q.y == y)) by {
                    let sub1 = cands@.subrange(0, j as int + 1);
                    if cands_has(sub1, x, y) {
                        let w = choose|w: int|
                            0 <= w < sub1.len() && (#[trigger] sub1[w]).x == x && sub1[w].y == y;
                        if w < j {
                            assert(cands@.subrange(0, j as int)[w].x == x);
                        }
                    }
                    if cands_has(cands@.subrange(0, j as int), x, y) {
                        let w = choose|w: int|
                            0 <= w < j && (#[trigger] cands@.subrange(0, j as int)[w]).x == x
                                && cands@.subrange(0, j as int)[w].y == y;
                        assert(sub1[w].x == x && sub1[w].y == y);
                    }
                    if q.x == x && q.y == y {
                        assert(sub1[j as int].x == x && sub1[j as int].y == y);
                    }
                }
                assert forall|x: int, y: int|
                    #![trigger colour_xy(out_cells@, x, y)]
                    colour_xy(out_cells@, x, y) == (if cands_has(
                        cands@.subrange(0, j as int + 1),
                        x,
                        y,
                    ) && flip_rule(s, x, y) {
                        !colour_xy(s, x, y)
                    } else {
                        colour_xy(s, x, y)
                    }) by {
                    assert(colour_xy(prev_out, x, y) == (if cands_has(
                        cands@.subrange(0, j as int),
                        x,
                        y,
                    ) && flip_rule(s, x, y) {
                        !colour_xy(s, x, y)
                    } else {
                        colour_xy(s, x, y)
                    }));
                }
                assert forall|x: int, y: int|
                    #![trigger has_xy(out_cells@, x, y)]
                    has_xy(out_cells@, x, y) == (has_xy(s, x, y) || (cands_has(
                        cands@.subrange(0, j as int + 1),
                        x,
                        y,
                    ) && flip_rule(s, x, y))) by {
                    assert(has_xy(prev_out, x, y) == (has_xy(s, x, y) || (cands_has(
                        cands@.subrange(0, j as int),
                        x,
                        y,
                    ) && flip_rule(s, x, y))));
                    if q.x == x && q.y == y && !flip_rule(s, x, y) {
                        assert(has_xy(out_cells@, x, y) == has_xy(prev_out, x, y));
                    }
                }
                assert forall|k: int|
                    0 <= k < out_cells@.len() implies -0x4000_0001 <= (
                #[trigger] out_cells@[k]).0.x <= 0x4000_0001 && -0x4000_0001 <= out_cells@[k].0.y
                    <= 0x4000_0001 by {
                    let x0 = out_cells@[k].0.x as int;
                    let y0 = out_cells@[k].0.y as int;
                    assert(has_xy(out_cells@, x0, y0)) by {
                        assert(out_cells@[k].0.x == x0 && out_cells@[k].0.y == y0);
                    }
                    if has_xy(prev_out, x0, y0) {
                        let w = choose|w: int|
                            0 <= w < prev_out.len() && (#[trigger] prev_out[w]).0.x == x0
                                && prev_out[w].0.y == y0;
                        assert(-0x4000_0001 <= prev_out[w].0.x <= 0x4000_0001);
                    } else {
                        assert(q.x == x0 && q.y == y0);
                        assert(-0x4000_0001 <= cands@[j as int].x <= 0x4000_0001);
                    }
                }
            }
            j = j + 1;
        }
        proof {
            assert(cands@.subrange(0, m as int) =~= cands@);
            // the work list holds exactly the cells the rule looks at
            assert forall|x: int, y: int|
                #![trigger considered(s, x, y)]
                cands_has(cands@, x, y) <==> considered(s, x, y) by {
                if cands_has(cands@, x, y) {
                    let jj = choose|jj: int|
                        0 <= jj < s.len() && (#[trigger] s[jj]).1 && near_cell(s[jj].0, x, y);
                    lemma_entry_colour(s, jj);
                    if s[jj].0.x == x && s[jj].0.y == y {
                        assert(colour_xy(s, x, y));
                    } else {
                        assert(spec_black_neighbours(s, x, y) > 0);
                    }
                }
                if considered(s, x, y) {
                    if colour_xy(s, x, y) {
                        let jj = choose|jj: int|
                            0 <= jj < s.len() && (#[trigger] s[jj]).0.x == x && s[jj].0.y == y;
                        lemma_entry_colour(s, jj);
                        assert(s[jj].1 && near_cell(s[jj].0, x, y));
                        assert(cands_has(cands@, x, y));
                    } else {
                        assert(spec_black_neighbours(s, x, y) > 0);
                        if colour_xy(s, x - 1, y + 1) {
                            let jj = choose|jj: int|
                                0 <= jj < s.len() && (#[trigger] s[jj]).0.x == x - 1 && s[jj].0.y
                                    == y + 1;
                            lemma_entry_colour(s, jj);
                            assert(s[jj].1 && near_cell(s[jj].0, x, y));
                        } else if colour_xy(s, x, y + 1) {
                            let jj = choose|jj: int|
                                0 <= jj < s.len() && (#[trigger] s[jj]).0.x == x && s[jj].0.y == y
                                    + 1;
                            lemma_entry_colour(s, jj);
                            assert(s[jj].1 && near_cell(s[jj].0, x, y));
                        } else if colour_xy(s, x - 1, y) {
                            let jj = choose|jj: int|
                                0 <= jj < s.len() && (#[trigger] s[jj]).0.x == x - 1 && s[jj].0.y
                                    == y;
                            lemma_entry_colour(s, jj);
                            assert(s[jj].1 && near_cell(s[jj].0, x, y));
                        } else if colour_xy(s, x + 1, y) {
                            let jj = choose|jj: int|
                                0 <= jj < s.len() && (#[trigger] s[jj]).0.x == x + 1 && s[jj].0.y
                                    == y;
                            lemma_entry_colour(s, jj);
                            assert(s[jj].1 && near_cell(s[jj].0, x, y));
                        } else if colour_xy(s, x, y - 1) {
                            let jj = choose|jj: int|
                                0 <= jj < s.len() && (#[trigger] s[jj]).0.x == x && s[jj].0.y == y
                                    - 1;
                            lemma_entry_colour(s, jj);
                            assert(s[jj].1 && near_cell(s[jj].0, x, y));
                        } else {
                            assert(colour_xy(s, x + 1, y - 1));
                            let jj = choose|jj: int|
                                0 <= jj < s.len() && (#[trigger] s[jj]).0.x == x + 1 && s[jj].0.y
                                    == y - 1;
                            lemma_entry_colour(s, jj);
                            assert(s[jj].1 && near_cell(s[jj].0, x, y));
                        }
                        assert(cands_has(cands@, x, y));
                    }
                }
            }
            // every kept or flipped entry sits at an old cell or next to
            // one, so the floor's reach grows by one cell at most
            assert forall|b: int|
                #[trigger] floor_bounded(s, b) && 0 <= b implies floor_bounded(
                out_cells@,
                b + 1,
            ) by {
                assert forall|k: int|
                    0 <= k < out_cells@.len() implies -(b + 1) <= (#[trigger] out_cells@[k]).0.x
                    <= b + 1 && -(b + 1) <= out_cells@[k].0.y <= b + 1 by {
                    let x0 = out_cells@[k].0.x as int;
                    let y0 = out_cells@[k].0.y as int;
                    assert(has_xy(out_cells@, x0, y0)) by {
                        assert(out_cells@[k].0.x == x0 && out_cells@[k].0.y == y0);
                    }
                    if has_xy(s, x0, y0) {
                        let w = choose|w: int|
                            0 <= w < s.len() && (#[trigger] s[w]).0.x == x0 && s[w].0.y == y0;
                        assert(-b <= s[w].0.x <= b && -b <= s[w].0.y <= b);
                    } else {
                        assert(cands_has(cands@, x0, y0));
                        let jj = choose|jj: int|
                            0 <= jj < s.len() && (#[trigger] s[jj]).1 && near_cell(s[jj].0, x0, y0);
                        assert(-b <= s[jj].0.x <= b && -b <= s[jj].0.y <= b);
                    }
                }
            }
        }
        Floor { cells: out_cells }
    }
}


/// The colour a cell shows after `n` days: the stored floor at day zero,
/// then the daily rule judged against the previous day.
pub open spec fn gen_colour(s: Seq<(Position, bool)>, n: nat, x: int, y: int) -> bool
    decreases n, 0nat,
{
    if n == 0 {
        colour_xy(s, x, y)
    } else {
        let cur = gen_colour(s, (n - 1) as nat, x, y);
        let bn = gen_black_neighbours(s, (n - 1) as nat, x, y);
        if cur {
            bn == 1 || bn == 2
        } else {
            bn == 2
        }
    }
}

/// How many of the six neighbours show black after `n` days.
pub open spec fn gen_black_neighbours(s: Seq<(Position, bool)>, n: nat, x: int, y: int) -> int
    decreases n, 1nat,
{
    (if gen_colour(s, n, x - 1, y + 1) {
        1int
    } else {
        0int
    }) + (if gen_colour(s, n, x, y + 1) {
        1int
    } else {
        0int
    }) + (if gen_colour(s, n, x - 1, y) {
        1int
    } else {
        0int
    }) + (if gen_colour(s, n, x + 1, y) {
        1int
    } else {
        0int
    }) + (if gen_colour(s, n, x, y - 1) {
        1int
    } else {
        0int
    }) + (if gen_colour(s, n, x + 1, y - 1) {
        1int
    } else {
        0int
    })
}

impl Floor {
    /// Let the given number of days pass, leaving this floor untouched.
    /// The result shows exactly the day-by-day evolution of the rule.
    pub fn run_for(&self, days: usize) -> (r: Floor)
        requires
            self.wf(),
            days <= 0x2000_0000,
            floor_bounded(self.cells@, 0x4000_0000 - days),
        ensures
            r.wf(),
            forall|x: int, y: int|
                #![trigger colour_xy(r.cells@, x, y)]
                colour_xy(r.cells@, x, y) == gen_colour(self.cells@, days as nat, x, y),
    {
        let ghost s0 = self.cells@;
        let mut cells: Vec<(Position, bool)> = Vec::new();
        let mut c: usize = 0;
        let n = self.cells.len();
        while c < n
            invariant
                c <= n,
                n == s0.len(),
                s0 == self.cells@,
                cells@ == s0.subrange(0, c as int),
            decreases n - c,
        {
            cells.push(self.cells[c]);
            proof {
                assert(cells@ =~= s0.subrange(0, c + 1));
            }
            c = c + 1;
        }
        proof {
            assert(cells@ =~= s0);
        }
        let mut current = Floor { cells };
        let mut t: usize = 0;
        while t < days
            invariant
                t <= days,
                days <= 0x2000_0000,
                s0 == self.cells@,
                current.wf(),
                floor_bounded(current.cells@, 0x4000_0000 - days + t),
                forall|x: int, y: int|
                    #![trigger colour_xy(current.cells@, x, y)]
                    colour_xy(current.cells@, x, y) == gen_colour(s0, t as nat, x, y),
            decreases days - t,
        {
            let ghost cs = current.cells@;
            proof {
                assert forall|i: int|
                    0 <= i < cs.len() implies -0x4000_0000 <= (#[trigger] cs[i]).0.x
                    <= 0x4000_0000 && -0x4000_0000 <= cs[i].0.y <= 0x4000_0000 by {
                    assert(-(0x4000_0000 - days + t) <= cs[i].0.x <= 0x4000_0000 - days + t);
                }
            }
            let nxt = current.next();
            proof {
                assert(floor_bounded(cs, 0x4000_0000 - days + t));
                assert(0 <= 0x4000_0000 - days + t);
                assert(floor_bounded(nxt.cells@, 0x4000_0000 - days + t + 1));
                assert forall|x: int, y: int|
                    #![trigger colour_xy(nxt.cells@, x, y)]
                    colour_xy(nxt.cells@, x, y) == gen_colour(s0, (t + 1) as nat, x, y) by {
                    assert(colour_xy(cs, x, y) == gen_colour(s0, t as nat, x, y));
                    assert(colour_xy(cs, x - 1, y + 1) == gen_colour(s0, t as nat, x - 1, y + 1));
                    assert(colour_xy(cs, x, y + 1) == gen_colour(s0, t as nat, x, y + 1));
                    assert(colour_xy(cs, x - 1, y) == gen_colour(s0, t as nat, x - 1, y));
                    assert(colour_xy(cs, x + 1, y) == gen_colour(s0, t as nat, x + 1, y));
                    assert(colour_xy(cs, x, y - 1) == gen_colour(s0, t as nat, x, y - 1));
                    assert(colour_xy(cs, x + 1, y - 1) == gen_colour(s0, t as nat, x + 1, y - 1));
                    assert(spec_black_neighbours(cs, x, y) == gen_black_neighbours(
                        s0,
                        t as nat,
                        x,
                        y,
                    ));
                }
            }
            current = nxt;
            t = t + 1;
        }
        current
    }
}

} // verus!
