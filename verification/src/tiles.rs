//! Jigsaw tile assembly: square boolean tiles with ids are rotated and
//! flipped until their edges match already-placed neighbours, growing a
//! sparse grid from a seed tile at the origin.

use vstd::prelude::*;

verus! {

/// A cell of the assembly grid.
#[derive(Clone, Copy, PartialEq, Eq, Structural, Debug)]
pub struct Position {
    pub x: i32,
    pub y: i32,
}

impl Position {
    pub fn new(x: i32, y: i32) -> (r: Position)
        ensures
            r.x == x && r.y == y,
    {
        Position { x, y }
    }

    /// The four orthogonal neighbours, in left/right/up/down order.
    pub fn neighbours(&self) -> (r: Vec<Position>)
        requires
            i32::MIN < self.x < i32::MAX,
            i32::MIN < self.y < i32::MAX,
        ensures
            r@.len() == 4,
            r@[0] == (Position { x: (self.x - 1) as i32, y: self.y }),
            r@[1] == (Position { x: (self.x + 1) as i32, y: self.y }),
            r@[2] == (Position { x: self.x, y: (self.y - 1) as i32 }),
            r@[3] == (Position { x: self.x, y: (self.y + 1) as i32 }),
    {
        let mut r: Vec<Position> = Vec::new();
        r.push(Position { x: self.x - 1, y: self.y });
        r.push(Position { x: self.x + 1, y: self.y });
        r.push(Position { x: self.x, y: self.y - 1 });
        r.push(Position { x: self.x, y: self.y + 1 });
        r
    }
}

/// The mathematical model of a tile's contents: a sequence of rows.
pub open spec fn view_grid(g: &Vec<Vec<bool>>) -> Seq<Seq<bool>> {
    Seq::new(g@.len(), |i: int| g@[i]@)
}

pub open spec fn grid_width(g: Seq<Seq<bool>>) -> nat {
    if g.len() == 0 {
        0
    } else {
        g[0].len()
    }
}

/// Every row has the same width: the grid is a perfect rectangle.
pub open spec fn is_rect(g: Seq<Seq<bool>>) -> bool {
    forall|i: int| 0 <= i < g.len() ==> (#[trigger] g[i]).len() == grid_width(g)
}

/// The column of cells at horizontal index `x`, top to bottom.
pub open spec fn col_of(g: Seq<Seq<bool>>, x: int) -> Seq<bool> {
    Seq::new(g.len(), |y: int| g[y][x])
}

/// One quarter turn clockwise: cell (x, y) moves to (height - 1 - y, x).
pub open spec fn rotate_grid(g: Seq<Seq<bool>>) -> Seq<Seq<bool>> {
    Seq::new(grid_width(g), |i: int| Seq::new(g.len(), |j: int| g[g.len() - 1 - j][i]))
}

/// Mirror left-to-right.
pub open spec fn flip_x_grid(g: Seq<Seq<bool>>) -> Seq<Seq<bool>> {
    Seq::new(g.len(), |y: int| Seq::new(grid_width(g), |x: int| g[y][grid_width(g) - 1 - x]))
}

/// Mirror top-to-bottom.
pub open spec fn flip_y_grid(g: Seq<Seq<bool>>) -> Seq<Seq<bool>> {
    Seq::new(g.len(), |y: int| g[g.len() - 1 - y])
}

/// Rotation sends a rectangle to a rectangle, swapping the dimensions.
pub proof fn lemma_rotate_rect(g: Seq<Seq<bool>>)
    requires
        is_rect(g),
        g.len() == 0 ==> grid_width(g) == 0,
        grid_width(g) == 0 ==> g.len() == 0,
    ensures
        is_rect(rotate_grid(g)),
        rotate_grid(g).len() == grid_width(g),
        grid_width(rotate_grid(g)) == g.len(),
{
    let r = rotate_grid(g);
    assert(r.len() == grid_width(g));
    if grid_width(g) > 0 {
        assert(r[0].len() == g.len());
    }
}

/// Rotation is a group of order four over the grid: applying the quarter
/// turn that `Tile::rotate` performs four times over reproduces the
/// original contents exactly.
pub proof fn lemma_rotate_four_times(g: Seq<Seq<bool>>)
    requires
        is_rect(g),
        g.len() == 0 ==> grid_width(g) == 0,
        grid_width(g) == 0 ==> g.len() == 0,
    ensures
        rotate_grid(rotate_grid(rotate_grid(rotate_grid(g)))) == g,
{
    let h = g.len() as int;
    let w = grid_width(g) as int;
    let r1 = rotate_grid(g);
    let r2 = rotate_grid(r1);
    let r3 = rotate_grid(r2);
    let r4 = rotate_grid(r3);
    if h == 0 || w == 0 {
        assert(r4 =~~= g);
    } else {
        lemma_rotate_rect(g);
        lemma_rotate_rect(r1);
        lemma_rotate_rect(r2);
        lemma_rotate_rect(r3);
        assert forall|y: int, x: int| 0 <= y < h && 0 <= x < w implies r4[y][x] == g[y][x] by {
            assert(r1[x][h - 1 - y] == g[y][x]);
            assert(r2[h - 1 - y][w - 1 - x] == r1[x][h - 1 - y]);
            assert(r3[w - 1 - x][y] == r2[h - 1 - y][w - 1 - x]);
            assert(r4[y][x] == r3[w - 1 - x][y]);
        }
        assert(r4 =~~= g);
    }
}

/// Flip is an involution: mirroring a grid twice along the same axis, as
/// `Tile::flip` does on one axis at a time, reproduces the original
/// contents exactly.
pub proof fn lemma_flip_involution(g: Seq<Seq<bool>>)
    requires
        is_rect(g),
    ensures
        flip_x_grid(flip_x_grid(g)) == g,
        flip_y_grid(flip_y_grid(g)) == g,
{
    let h = g.len() as int;
    let w = grid_width(g) as int;
    let fx = flip_x_grid(g);
    assert(is_rect(fx) && grid_width(fx) == grid_width(g)) by {
        if h > 0 {
            assert(fx[0].len() == w);
        }
    }
    assert forall|y: int| 0 <= y < h implies flip_x_grid(fx)[y] == g[y] by {
        assert forall|x: int| 0 <= x < w implies flip_x_grid(fx)[y][x] == g[y][x] by {
            assert(fx[y][w - 1 - x] == g[y][x]);
        }
        assert(flip_x_grid(fx)[y] =~= g[y]);
    }
    assert(flip_x_grid(fx) =~~= g);
    assert(flip_y_grid(flip_y_grid(g)) =~~= g);
}

/// A tile: a rectangular boolean grid with an id, plus the rotation (in
/// degrees) and flip flags that record the pose it is currently shown in.
pub struct Tile {
    pub id: usize,
    pub grid: Vec<Vec<bool>>,
    pub rot: usize,
    pub flip: (bool, bool),
}

impl Tile {
    /// The mathematical contents of this tile's grid.
    pub open spec fn gview(&self) -> Seq<Seq<bool>> {
        view_grid(&self.grid)
    }

    /// The grid is a perfect rectangle, and is empty only if it has no rows.
    pub open spec fn wf(&self) -> bool {
        &&& is_rect(self.gview())
        &&& (self.gview().len() == 0 ==> grid_width(self.gview()) == 0)
        &&& (grid_width(self.gview()) == 0 ==> self.gview().len() == 0)
    }

    /// A tile with some content: both dimensions are positive.
    pub open spec fn nonempty(&self) -> bool {
        self.gview().len() > 0 && grid_width(self.gview()) > 0
    }

    pub fn new() -> (r: Tile)
        ensures
            r.id == 0 && r.rot == 0 && r.flip == (false, false),
            r.gview() =~~= Seq::<Seq<bool>>::empty(),
            r.wf(),
    {
        Tile { id: 0, grid: Vec::new(), rot: 0, flip: (false, false) }
    }

    pub fn height(&self) -> (r: usize)
        ensures
            r == self.gview().len(),
    {
        self.grid.len()
    }

    pub fn width(&self) -> (r: usize)
        ensures
            r == grid_width(self.gview()),
    {
        if self.grid.len() == 0 {
            0
        } else {
            self.grid[0].len()
        }
    }

    /// The row of cells at vertical index `y`, left to right.
    pub fn get_line(&self, y: usize) -> (r: Vec<bool>)
        requires
            y < self.gview().len(),
    ensures
            r@ == self.gview()[y as int],
    {
        let row = &self.grid[y];
        let mut r: Vec<bool> = Vec::new();
        let mut x: usize = 0;
        while x < row.len()
            invariant
                x <= row@.len(),
                row@ == self.gview()[y as int],
                r@ == row@.subrange(0, x as int),
            decreases row@.len() - x,
        {
            r.push(row[x]);
            x = x + 1;
        }
        assert(r@ =~= self.gview()[y as int]);
        r
    }

    /// The column of cells at horizontal index `x`, top to bottom.
    pub fn get_col(&self, x: usize) -> (r: Vec<bool>)
        requires
            self.wf(),
            x < grid_width(self.gview()),
        ensures
            r@ == col_of(self.gview(), x as int),
    {
        let mut r: Vec<bool> = Vec::new();
        let mut y: usize = 0;
        let n = self.grid.len();
        while y < n
            invariant
                y <= n,
                n == self.gview().len(),
                self.wf(),
                x < grid_width(self.gview()),
                r@ =~= col_of(self.gview(), x as int).subrange(0, y as int),
            decreases n - y,
        {
            proof {
                assert(self.gview()[y as int].len() == grid_width(self.gview()));
            }
            r.push(self.grid[y][x]);
            y = y + 1;
            proof {
                assert(r@ =~= col_of(self.gview(), x as int).subrange(0, y as int));
            }
        }
        assert(r@ =~= col_of(self.gview(), x as int));
        r
    }

    /// A copy of this tile, in the same pose.
    pub fn duplicate(&self) -> (r: Tile)
        ensures
            r.id == self.id && r.rot == self.rot && r.flip == self.flip,
            r.gview() == self.gview(),
    {
        let mut grid: Vec<Vec<bool>> = Vec::new();
        let mut y: usize = 0;
        let n = self.grid.len();
        while y < n
            invariant
                y <= n,
                n == self.grid@.len(),
                grid@.len() == y,
                forall|k: int| 0 <= k < y ==> (#[trigger] grid@[k])@ == self.gview()[k],
            decreases n - y,
        {
            let row = self.get_line_raw(y);
            grid.push(row);
            y = y + 1;
        }
        assert(view_grid(&grid) =~= self.gview());
        Tile { id: self.id, grid, rot: self.rot, flip: self.flip }
    }

    /// A copy of row `y` (also usable on non-rectangular intermediate grids).
    fn get_line_raw(&self, y: usize) -> (r: Vec<bool>)
        requires
            y < self.grid@.len(),
        ensures
            r@ == self.gview()[y as int],
    {
        let row = &self.grid[y];
        let mut r: Vec<bool> = Vec::new();
        let mut x: usize = 0;
        while x < row.len()
            invariant
                x <= row@.len(),
                row@ == self.gview()[y as int],
                r@ == row@.subrange(0, x as int),
            decreases row@.len() - x,
        {
            r.push(row[x]);
            x = x + 1;
        }
        assert(r@ =~= self.gview()[y as int]);
        r
    }

    /// A new tile whose grid is this one's turned a quarter turn clockwise;
    /// the recorded rotation grows by 90 degrees.
    pub fn rotate(&self) -> (r: Tile)
        requires
            self.wf(),
            self.rot + 90 <= usize::MAX,
        ensures
            r.id == self.id,
            r.rot == self.rot + 90,
            r.flip == self.flip,
            r.gview() == rotate_grid(self.gview()),
            r.wf(),
    {
        let ghost g = self.gview();
        let height = self.grid.len();
        let width = self.width();
        let mut grid: Vec<Vec<bool>> = Vec::new();
        let mut i: usize = 0;
        while i < width
            invariant
                i <= width,
                width == grid_width(g),
                height == g.len(),
                self.wf(),
                g == self.gview(),
                grid@.len() == i,
                forall|k: int| 0 <= k < i ==> (#[trigger] grid@[k])@ == rotate_grid(g)[k],
            decreases width - i,
        {
            let mut row: Vec<bool> = Vec::new();
            let mut j: usize = 0;
            while j < height
                invariant
                    j <= height,
                    i < width,
                    width == grid_width(g),
                    height == g.len(),
                    self.wf(),
                    g == self.gview(),
                    row@ =~= rotate_grid(g)[i as int].subrange(0, j as int),
                decreases height - j,
            {
                proof {
                    assert(g[(height - 1 - j) as int].len() == grid_width(g));
                }
                row.push(self.grid[height - 1 - j][i]);
                j = j + 1;
                proof {
                    assert(row@ =~= rotate_grid(g)[i as int].subrange(0, j as int));
                }
            }
            assert(row@ =~= rotate_grid(g)[i as int]);
            grid.push(row);
            i = i + 1;
        }
        assert(view_grid(&grid) =~= rotate_grid(g));
        let r = Tile { id: self.id, grid, rot: self.rot + 90, flip: self.flip };
        proof {
            lemma_rotate_rect(g);
        }
        r
    }

    /// A new tile mirrored along the given axis: left-right when `flip_x`
    /// is true, top-bottom otherwise. The matching flip flag is toggled.
    pub fn flip(&self, flip_x: bool) -> (r: Tile)
        requires
            self.wf(),
        ensures
            r.id == self.id,
            r.rot == self.rot,
            r.flip == (if flip_x {
                (!self.flip.0, self.flip.1)
            } else {
                (self.flip.0, !self.flip.1)
            }),
            r.gview() == (if flip_x {
                flip_x_grid(self.gview())
            } else {
                flip_y_grid(self.gview())
            }),
            r.wf(),
    {
        let ghost g = self.gview();
        let height = self.grid.len();
        let width = self.width();
        let mut grid: Vec<Vec<bool>> = Vec::new();
        let mut y: usize = 0;
        let ghost target: Seq<Seq<bool>> = if flip_x {
            flip_x_grid(g)
        } else {
            flip_y_grid(g)
        };
        while y < height
            invariant
                y <= height,
                width == grid_width(g),
                height == g.len(),
                self.wf(),
                g == self.gview(),
                target == (if flip_x {
                    flip_x_grid(g)
                } else {
                    flip_y_grid(g)
                }),
                grid@.len() == y,
                forall|k: int| 0 <= k < y ==> (#[trigger] grid@[k])@ == target[k],
            decreases height - y,
        {
            let mut row: Vec<bool> = Vec::new();
            let mut x: usize = 0;
            while x < width
                invariant
                    x <= width,
                    y < height,
                    width == grid_width(g),
                    height == g.len(),
                    self.wf(),
                    g == self.gview(),
                    target == (if flip_x {
                        flip_x_grid(g)
                    } else {
                        flip_y_grid(g)
                    }),
                    row@ =~= target[y as int].subrange(0, x as int),
                decreases width - x,
            {
                if flip_x {
                    proof {
                        assert(g[y as int].len() == grid_width(g));
                    }
                    row.push(self.grid[y][width - 1 - x]);
                } else {
                    proof {
                        assert(g[(height - 1 - y) as int].len() == grid_width(g));
                    }
                    row.push(self.grid[height - 1 - y][x]);
                }
                x = x + 1;
                proof {
                    assert(row@ =~= target[y as int].subrange(0, x as int));
                }
            }
            assert(row@ =~= target[y as int]);
            grid.push(row);
            y = y + 1;
        }
        assert(view_grid(&grid) =~= target);
        let new_flip = if flip_x {
            (!self.flip.0, self.flip.1)
        } else {
            (self.flip.0, !self.flip.1)
        };
        let r = Tile { id: self.id, grid, rot: self.rot, flip: new_flip };
        proof {
            let h = g.len() as int;
            let w = grid_width(g) as int;
            if h > 0 {
                assert(target[0].len() == w);
            }
            assert(is_rect(target));
        }
        r
    }

    /// The next pose in the enumeration order: rotate until a full turn is
    /// recorded, then toggle through the flip states, and finally stop.
    pub fn next(&self) -> (r: Option<Tile>)
        requires
            self.wf(),
        ensures
            self.rot < 360 ==> (r matches Some(t) && t.id == self.id && t.rot == self.rot + 90
                && t.flip == self.flip && t.gview() == rotate_grid(self.gview()) && t.wf()),
            self.rot >= 360 && !self.flip.0 && !self.flip.1 ==> (r matches Some(t) && t.id
                == self.id && t.rot == self.rot % 360 && t.flip == (true, false) && t.gview()
                == flip_x_grid(self.gview()) && t.wf()),
            self.rot >= 360 && self.flip.0 && !self.flip.1 ==> (r matches Some(t) && t.id
                == self.id && t.rot == self.rot % 360 && t.flip == (true, true) && t.gview()
                == flip_y_grid(self.gview()) && t.wf()),
            self.rot >= 360 && self.flip.0 && self.flip.1 ==> (r matches Some(t) && t.id
                == self.id && t.rot == self.rot % 360 && t.flip == (false, true) && t.gview()
                == flip_x_grid(self.gview()) && t.wf()),
            self.rot >= 360 && !self.flip.0 && self.flip.1 ==> r is None,
    {
        if self.rot < 360 {
            return Some(self.rotate());
        }
        let mut rv = if !self.flip.0 && !self.flip.1 {
            self.flip(true)
        } else if self.flip.0 && !self.flip.1 {
            self.flip(false)
        } else if self.flip.0 && self.flip.1 {
            self.flip(true)
        } else {
            return None;
        };
        rv.rot = rv.rot % 360;
        Some(rv)
    }
}

impl Clone for Tile {
    fn clone(&self) -> (r: Tile)
        ensures
            r.id == self.id && r.rot == self.rot && r.flip == self.flip,
            r.gview() == self.gview(),
    {
        self.duplicate()
    }
}

/// Two tiles that carry the same id, pose and grid contents.
pub open spec fn tile_like(a: Tile, b: Tile) -> bool {
    a.id == b.id && a.rot == b.rot && a.flip == b.flip && a.gview() == b.gview()
}

pub open spec fn seq_tile_like(a: Seq<Tile>, b: Seq<Tile>) -> bool {
    a.len() == b.len() && forall|i: int| 0 <= i < a.len() ==> tile_like(#[trigger] a[i], b[i])
}

/// `t` mirrors some entry of the list `ts` (same id, pose and grid).
pub open spec fn from_list(t: Tile, ts: Seq<Tile>) -> bool {
    exists|k: int| 0 <= k < ts.len() && tile_like(t, #[trigger] ts[k])
}

/// `n` and `p` are orthogonally adjacent cells.
pub open spec fn is_neighbour4(n: Position, p: Position) -> bool {
    ||| (n.x == p.x - 1 && n.y == p.y)
    ||| (n.x == p.x + 1 && n.y == p.y)
    ||| (n.x == p.x && n.y == p.y - 1)
    ||| (n.x == p.x && n.y == p.y + 1)
}

/// The edge comparison made when a candidate grid `c` is tried in cell `n`
/// against a placed grid `t` in the adjacent cell `p`: the two facing edges
/// must hold the same sequence of cells.
pub open spec fn fits_beside(
    c: Seq<Seq<bool>>,
    t: Seq<Seq<bool>>,
    n: Position,
    p: Position,
) -> bool {
    if n.x < p.x {
        col_of(c, grid_width(c) - 1) == col_of(t, 0)
    } else if n.x > p.x {
        col_of(c, 0) == col_of(t, grid_width(t) - 1)
    } else if n.y < p.y {
        c[c.len() - 1] == t[0]
    } else {
        c[0] == t[t.len() - 1]
    }
}

/// Edge-matching is symmetric: a candidate fits beside a placed tile
/// exactly when, with the roles swapped, the other tile fits on the
/// opposite side, because both placements compare the same shared
/// boundary.
pub proof fn lemma_edge_match_symmetric(
    a: Seq<Seq<bool>>,
    b: Seq<Seq<bool>>,
    n: Position,
    p: Position,
)
    requires
        is_neighbour4(n, p),
    ensures
        fits_beside(a, b, n, p) == fits_beside(b, a, p, n),
{
}

/// Cell `p` already holds a tile.
pub open spec fn occupied(s: Seq<(Position, Tile)>, p: Position) -> bool {
    exists|i: int| 0 <= i < s.len() && (#[trigger] s[i]).0 == p
}

/// A candidate grid `c` may be placed in free cell `n`: some placed tile is
/// adjacent to `n` and the facing edges agree.
pub open spec fn fits_at(s: Seq<(Position, Tile)>, c: Seq<Seq<bool>>, n: Position) -> bool {
    &&& !occupied(s, n)
    &&& exists|i: int|
        0 <= i < s.len() && is_neighbour4(n, (#[trigger] s[i]).0) && fits_beside(
            c,
            s[i].1.gview(),
            n,
            s[i].0,
        )
}

/// Where a pose stands in the enumeration order that `Tile::next` walks:
/// four rotations in each of the four flip states.
pub open spec fn flip_rank(fx: bool, fy: bool) -> int {
    if !fx && !fy {
        3
    } else if fx && !fy {
        2
    } else if fx && fy {
        1
    } else {
        0
    }
}

pub open spec fn pose_measure(rot: nat, fx: bool, fy: bool) -> int {
    flip_rank(fx, fy) * 1000 + if rot < 360 {
        360 - rot
    } else {
        0int
    }
}

/// Some pose in the enumeration that `Tile::next` walks from the given pose
/// onward fits somewhere against the placed tiles `s`.
pub open spec fn chain_can_place(
    s: Seq<(Position, Tile)>,
    g: Seq<Seq<bool>>,
    rot: nat,
    fx: bool,
    fy: bool,
) -> bool
    decreases pose_measure(rot, fx, fy),
{
    if exists|n: Position| fits_at(s, g, n) {
        true
    } else if rot < 360 {
        chain_can_place(s, rotate_grid(g), (rot + 90) as nat, fx, fy)
    } else if !fx && !fy {
        chain_can_place(s, flip_x_grid(g), (rot % 360) as nat, true, false)
    } else if fx && !fy {
        chain_can_place(s, flip_y_grid(g), (rot % 360) as nat, true, true)
    } else if fx && fy {
        chain_can_place(s, flip_x_grid(g), (rot % 360) as nat, false, true)
    } else {
        false
    }
}

/// One step of the pose enumeration that `Tile::next` walks: the grid,
/// rotation counter and flip flags of the pose that follows, if any.
pub open spec fn pose_step(g: Seq<Seq<bool>>, rot: nat, fx: bool, fy: bool) -> Option<
    (Seq<Seq<bool>>, nat, bool, bool),
> {
    if rot < 360 {
        Some((rotate_grid(g), (rot + 90) as nat, fx, fy))
    } else if !fx && !fy {
        Some((flip_x_grid(g), (rot % 360) as nat, true, false))
    } else if fx && !fy {
        Some((flip_y_grid(g), (rot % 360) as nat, true, true))
    } else if fx && fy {
        Some((flip_x_grid(g), (rot % 360) as nat, false, true))
    } else {
        None
    }
}

/// The second pose is reachable from the first by zero or more steps of
/// the enumeration that `Tile::next` walks.
pub open spec fn pose_reach(
    g: Seq<Seq<bool>>,
    rot: nat,
    fx: bool,
    fy: bool,
    g2: Seq<Seq<bool>>,
    rot2: nat,
    fx2: bool,
    fy2: bool,
) -> bool
    decreases pose_measure(rot, fx, fy),
{
    ||| (g == g2 && rot == rot2 && fx == fx2 && fy == fy2)
    ||| (match pose_step(g, rot, fx, fy) {
        Some(nx) => pose_reach(nx.0, nx.1, nx.2, nx.3, g2, rot2, fx2, fy2),
        None => false,
    })
}

/// Reachability extends along one more enumeration step.
proof fn lemma_pose_reach_step(
    ag: Seq<Seq<bool>>,
    arot: nat,
    afx: bool,
    afy: bool,
    bg: Seq<Seq<bool>>,
    brot: nat,
    bfx: bool,
    bfy: bool,
)
    requires
        pose_reach(ag, arot, afx, afy, bg, brot, bfx, bfy),
        pose_step(bg, brot, bfx, bfy) is Some,
    ensures
        ({
            let nx = pose_step(bg, brot, bfx, bfy)->0;
            pose_reach(ag, arot, afx, afy, nx.0, nx.1, nx.2, nx.3)
        }),
    decreases pose_measure(arot, afx, afy),
{
    let nxb = pose_step(bg, brot, bfx, bfy)->0;
    if ag == bg && arot == brot && afx == bfx && afy == bfy {
        assert(pose_reach(nxb.0, nxb.1, nxb.2, nxb.3, nxb.0, nxb.1, nxb.2, nxb.3));
    } else {
        assert(pose_step(ag, arot, afx, afy) is Some);
        let nxa = pose_step(ag, arot, afx, afy)->0;
        lemma_pose_reach_step(nxa.0, nxa.1, nxa.2, nxa.3, bg, brot, bfx, bfy);
    }
}

/// The tile is a pose (per the `Tile::next` walk) of some worklist tile,
/// carrying that tile's id.
pub open spec fn placed_from(worklist: Seq<Tile>, t: Tile) -> bool {
    exists|k: int|
        0 <= k < worklist.len() && (#[trigger] worklist[k]).id == t.id && pose_reach(
            worklist[k].gview(),
            worklist[k].rot as nat,
            worklist[k].flip.0,
            worklist[k].flip.1,
            t.gview(),
            t.rot as nat,
            t.flip.0,
            t.flip.1,
        )
}

/// Every entry from index `from` on was placed at a cell that was free and
/// edge-matching at the moment it was appended: the placement condition
/// holds against exactly the entries that stood before it.
pub open spec fn placements_valid(s: Seq<(Position, Tile)>, from: int) -> bool {
    forall|j: int|
        from <= j < s.len() ==> fits_at(s.subrange(0, j), (#[trigger] s[j]).1.gview(), s[j].0)
}

/// A pose of a mirror of some list entry is a pose of the mirrored list.
proof fn lemma_placed_from_mirrors(a: Seq<Tile>, b: Seq<Tile>, t: Tile)
    requires
        placed_from(a, t),
        forall|j: int| 0 <= j < a.len() ==> from_list(#[trigger] a[j], b),
    ensures
        placed_from(b, t),
{
    let k = choose|k: int|
        0 <= k < a.len() && (#[trigger] a[k]).id == t.id && pose_reach(
            a[k].gview(),
            a[k].rot as nat,
            a[k].flip.0,
            a[k].flip.1,
            t.gview(),
            t.rot as nat,
            t.flip.0,
            t.flip.1,
        );
    assert(from_list(a[k], b));
    let m = choose|m: int| 0 <= m < b.len() && tile_like(a[k], #[trigger] b[m]);
    assert(b[m].id == t.id && pose_reach(
        b[m].gview(),
        b[m].rot as nat,
        b[m].flip.0,
        b[m].flip.1,
        t.gview(),
        t.rot as nat,
        t.flip.0,
        t.flip.1,
    ));
}

/// A mirror of a mirror of some list entry mirrors the list directly.
proof fn lemma_from_list_mirrors(t: Tile, a: Seq<Tile>, b: Seq<Tile>)
    requires
        from_list(t, a),
        forall|j: int| 0 <= j < a.len() ==> from_list(#[trigger] a[j], b),
    ensures
        from_list(t, b),
{
    let k = choose|k: int| 0 <= k < a.len() && tile_like(t, #[trigger] a[k]);
    assert(from_list(a[k], b));
    let m = choose|m: int| 0 <= m < b.len() && tile_like(a[k], #[trigger] b[m]);
    assert(tile_like(t, b[m]));
}

/// The assembly state: a sparse grid of placed tiles, grown from a seed
/// tile at the origin.
pub struct Group {
    pub tiles: Vec<(Position, Tile)>,
}

impl Group {
    /// At least one tile is placed, every cell holds at most one tile, all
    /// placed tiles are well-formed with content, and every placed cell
    /// lies within taxicab distance `len` of the origin (each placement
    /// extends the reach by one cell at most).
    pub open spec fn wf(&self) -> bool {
        let s = self.tiles@;
        &&& s.len() >= 1
        &&& forall|i: int, j: int|
            0 <= i < j < s.len() ==> (#[trigger] s[i]).0 != (#[trigger] s[j]).0
        &&& forall|i: int| 0 <= i < s.len() ==> (#[trigger] s[i]).1.wf() && s[i].1.nonempty()
        &&& forall|i: int|
            0 <= i < s.len() ==> vstd::math::abs((#[trigger] s[i]).0.x as int) + vstd::math::abs(
                s[i].0.y as int,
            ) < s.len()
    }

    /// Start an assembly with one seed tile at the origin.
    pub fn new(first_tile: Tile) -> (r: Group)
        requires
            first_tile.wf(),
            first_tile.nonempty(),
        ensures
            r.wf(),
            r.tiles@.len() == 1,
            r.tiles@[0].0 == (Position { x: 0, y: 0 }),
            r.tiles@[0].1 == first_tile,
    {
        let mut tiles: Vec<(Position, Tile)> = Vec::new();
        tiles.push((Position { x: 0, y: 0 }, first_tile));
        Group { tiles }
    }

    /// Find the entry holding cell `p`, if any.
    fn find_pos(&self, p: &Position) -> (r: Option<usize>)
        ensures
            match r {
                Some(i) => i < self.tiles@.len() && self.tiles@[i as int].0 == *p,
                None => !occupied(self.tiles@, *p),
            },
    {
        let mut i: usize = 0;
        let n = self.tiles.len();
        while i < n
            invariant
                i <= n,
                n == self.tiles@.len(),
                forall|j: int| 0 <= j < i ==> (#[trigger] self.tiles@[j]).0 != *p,
            decreases n - i,
        {
            if self.tiles[i].0.x == p.x && self.tiles[i].0.y == p.y {
                return Some(i);
            }
            i = i + 1;
        }
        None
    }

    /// Compare the facing edges of a candidate in cell `n` against the
    /// placed tile of entry `i` in the adjacent cell.
    fn slot_fits(&self, tile: &Tile, i: usize, n: Position) -> (r: bool)
        requires
            self.wf(),
            tile.wf(),
            tile.nonempty(),
            i < self.tiles@.len(),
            is_neighbour4(n, self.tiles@[i as int].0),
        ensures
            r == (!occupied(self.tiles@, n) && fits_beside(
                tile.gview(),
                self.tiles@[i as int].1.gview(),
                n,
                self.tiles@[i as int].0,
            )),
    {
        match self.find_pos(&n) {
            Some(_) => false,
            None => {
                let placed = &self.tiles[i].1;
                let p = self.tiles[i].0;
                proof {
                    assert(self.tiles@[i as int].1.wf() && self.tiles@[i as int].1.nonempty());
                }
                if n.x < p.x {
                    let a = tile.get_col(tile.width() - 1);
                    let b = placed.get_col(0);
                    let eq = a == b;
                    proof {
                        if eq {
                            assert(a@ =~= b@);
                        }
                    }
                    eq
                } else if n.x > p.x {
                    let a = tile.get_col(0);
                    let b = placed.get_col(placed.width() - 1);
                    let eq = a == b;
                    proof {
                        if eq {
                            assert(a@ =~= b@);
                        }
                    }
                    eq
                } else if n.y < p.y {
                    let a = tile.get_line(tile.height() - 1);
                    let b = placed.get_line(0);
                    let eq = a == b;
                    proof {
                        if eq {
                            assert(a@ =~= b@);
                        }
                    }
                    eq
                } else {
                    let a = tile.get_line(0);
                    let b = placed.get_line(placed.height() - 1);
                    let eq = a == b;
                    proof {
                        if eq {
                            assert(a@ =~= b@);
                        }
                    }
                    eq
                }
            },
        }
    }

    /// Look for a free cell where the candidate, in its current pose, sits
    /// edge-to-edge with some already-placed tile. Nothing is modified; on
    /// success the matching free cell is returned.
    pub fn is_valid_addition(&self, tile: &Tile) -> (r: Option<Position>)
        requires
            self.wf(),
            tile.wf(),
            tile.nonempty(),
            self.tiles@.len() < 0x1000_0000,
        ensures
            r matches Some(n) ==> fits_at(self.tiles@, tile.gview(), n) && vstd::math::abs(
                n.x as int,
            ) + vstd::math::abs(n.y as int) <= self.tiles@.len(),
            r is None ==> forall|n: Position| !fits_at(self.tiles@, tile.gview(), n),
    {
        let ghost s = self.tiles@;
        let ghost c = tile.gview();
        let mut i: usize = 0;
        let len = self.tiles.len();
        while i < len
            invariant
                i <= len,
                len == s.len(),
                s == self.tiles@,
                c == tile.gview(),
                self.wf(),
                tile.wf(),
                tile.nonempty(),
                s.len() < 0x1000_0000,
                forall|n: Position, j: int|
                    #![trigger fits_beside(c, s[j].1.gview(), n, s[j].0)]
                    0 <= j < i && is_neighbour4(n, s[j].0) && !occupied(s, n)
                        ==> !fits_beside(c, s[j].1.gview(), n, s[j].0),
            decreases len - i,
        {
            let p = self.tiles[i].0;
            proof {
                assert(vstd::math::abs(s[i as int].0.x as int) + vstd::math::abs(
                    s[i as int].0.y as int,
                ) < s.len());
            }
            let n0 = Position { x: p.x - 1, y: p.y };
            if self.slot_fits(tile, i, n0) {
                return Some(n0);
            }
            let n1 = Position { x: p.x + 1, y: p.y };
            if self.slot_fits(tile, i, n1) {
                return Some(n1);
            }
            let n2 = Position { x: p.x, y: p.y - 1 };
            if self.slot_fits(tile, i, n2) {
                return Some(n2);
            }
            let n3 = Position { x: p.x, y: p.y + 1 };
            if self.slot_fits(tile, i, n3) {
                return Some(n3);
            }
            proof {
                assert forall|n: Position|
                    is_neighbour4(n, s[i as int].0) implies n == n0 || n == n1 || n == n2 || n
                    == n3 by {}
            }
            i = i + 1;
        }
        proof {
            assert forall|n: Position| !fits_at(s, c, n) by {
                if fits_at(s, c, n) {
                    let j = choose|j: int|
                        0 <= j < s.len() && is_neighbour4(n, (#[trigger] s[j]).0) && fits_beside(
                            c,
                            s[j].1.gview(),
                            n,
                            s[j].0,
                        );
                    assert(!fits_beside(c, s[j].1.gview(), n, s[j].0));
                }
            }
        }
        None
    }

    /// Try to place each tile of the worklist, walking all of its poses;
    /// tiles that fit nowhere are handed back unchanged. Every entry this
    /// sweep appends is a pose of a worklist tile, placed at a cell that
    /// was free and edge-matching at that moment. When nothing at all
    /// could be placed, the group is unchanged and no pose of any worklist
    /// tile fits anywhere against it.
    pub fn consume_tiles(&mut self, tiles: Vec<Tile>) -> (rv: Vec<Tile>)
        requires
            old(self).wf(),
            forall|k: int|
                0 <= k < tiles@.len() ==> (#[trigger] tiles@[k]).wf() && tiles@[k].nonempty(),
            old(self).tiles@.len() + tiles@.len() < 0x1000_0000,
        ensures
            final(self).wf(),
            final(self).tiles@.len() >= old(self).tiles@.len(),
            rv@.len() <= tiles@.len(),
            final(self).tiles@.subrange(0, old(self).tiles@.len() as int) == old(self).tiles@,
            final(self).tiles@.len() + rv@.len() == old(self).tiles@.len() + tiles@.len(),
            forall|j: int| 0 <= j < rv@.len() ==> (#[trigger] rv@[j]).wf() && rv@[j].nonempty(),
            forall|j: int| 0 <= j < rv@.len() ==> from_list(#[trigger] rv@[j], tiles@),
            placements_valid(final(self).tiles@, old(self).tiles@.len() as int),
            forall|j: int|
                old(self).tiles@.len() <= j < final(self).tiles@.len() ==> placed_from(
                    tiles@,
                    (#[trigger] final(self).tiles@[j]).1,
                ),
            rv@.len() == tiles@.len() ==> final(self).tiles@ == old(self).tiles@ && seq_tile_like(
                rv@,
                tiles@,
            ) && forall|k: int|
                0 <= k < tiles@.len() ==> !chain_can_place(
                    old(self).tiles@,
                    (#[trigger] tiles@[k]).gview(),
                    tiles@[k].rot as nat,
                    tiles@[k].flip.0,
                    tiles@[k].flip.1,
                ),
    {
        let ghost s0 = old(self).tiles@;
        let mut rv: Vec<Tile> = Vec::new();
        let mut idx: usize = 0;
        let n = tiles.len();
        while idx < n
            invariant
                idx <= n,
                n == tiles@.len(),
                forall|k: int|
                    0 <= k < tiles@.len() ==> (#[trigger] tiles@[k]).wf() && tiles@[k].nonempty(),
                s0.len() + tiles@.len() < 0x1000_0000,
                s0 == old(self).tiles@,
                self.wf(),
                self.tiles@.len() >= s0.len(),
                rv@.len() <= idx,
                self.tiles@.subrange(0, s0.len() as int) == s0,
                self.tiles@.len() + rv@.len() == s0.len() + idx,
                forall|j: int| 0 <= j < rv@.len() ==> (#[trigger] rv@[j]).wf() && rv@[j].nonempty(),
                forall|j: int| 0 <= j < rv@.len() ==> from_list(#[trigger] rv@[j], tiles@),
                placements_valid(self.tiles@, s0.len() as int),
                forall|j: int|
                    s0.len() <= j < self.tiles@.len() ==> placed_from(
                        tiles@,
                        (#[trigger] self.tiles@[j]).1,
                    ),
                rv@.len() == idx ==> self.tiles@ == s0 && seq_tile_like(
                    rv@,
                    tiles@.subrange(0, idx as int),
                ) && forall|k: int|
                    0 <= k < idx ==> !chain_can_place(
                        s0,
                        (#[trigger] tiles@[k]).gview(),
                        tiles@[k].rot as nat,
                        tiles@[k].flip.0,
                        tiles@[k].flip.1,
                    ),
            decreases n - idx,
        {
            let t = &tiles[idx];
            let ghost s_in = self.tiles@;
            let mut current: Tile = t.clone();
            let mut placed = false;
            proof {
                assert(pose_reach(
                    t.gview(),
                    t.rot as nat,
                    t.flip.0,
                    t.flip.1,
                    current.gview(),
                    current.rot as nat,
                    current.flip.0,
                    current.flip.1,
                ));
            }
            loop
                invariant_except_break
                    self.wf(),
                    self.tiles@ == s_in,
                    s_in.len() < 0x1000_0000,
                    current.wf(),
                    current.nonempty(),
                    current.id == t.id,
                    placed == false,
                    t.wf() && t.nonempty(),
                    pose_reach(
                        t.gview(),
                        t.rot as nat,
                        t.flip.0,
                        t.flip.1,
                        current.gview(),
                        current.rot as nat,
                        current.flip.0,
                        current.flip.1,
                    ),
                    chain_can_place(
                        s_in,
                        t.gview(),
                        t.rot as nat,
                        t.flip.0,
                        t.flip.1,
                    ) == chain_can_place(
                        s_in,
                        current.gview(),
                        current.rot as nat,
                        current.flip.0,
                        current.flip.1,
                    ),
                ensures
                    self.wf(),
                    placed ==> self.tiles@.len() == s_in.len() + 1 && self.tiles@.subrange(
                        0,
                        s_in.len() as int,
                    ) == s_in && fits_at(
                        s_in,
                        self.tiles@[s_in.len() as int].1.gview(),
                        self.tiles@[s_in.len() as int].0,
                    ) && self.tiles@[s_in.len() as int].1.id == t.id && pose_reach(
                        t.gview(),
                        t.rot as nat,
                        t.flip.0,
                        t.flip.1,
                        self.tiles@[s_in.len() as int].1.gview(),
                        self.tiles@[s_in.len() as int].1.rot as nat,
                        self.tiles@[s_in.len() as int].1.flip.0,
                        self.tiles@[s_in.len() as int].1.flip.1,
                    ),
                    !placed ==> self.tiles@ == s_in && !chain_can_place(
                        s_in,
                        t.gview(),
                        t.rot as nat,
                        t.flip.0,
                        t.flip.1,
                    ),
                decreases pose_measure(current.rot as nat, current.flip.0, current.flip.1),
            {
                match self.is_valid_addition(&current) {
                    Some(p) => {
                        proof {
                            let s = self.tiles@;
                            let entry = (p, current);
                            let s2 = s.push(entry);
                            assert forall|i: int, j: int|
                                0 <= i < j < s2.len() implies (#[trigger] s2[i]).0 != (
                            #[trigger] s2[j]).0 by {
                                if j == s.len() as int {
                                    assert(!occupied(s, p));
                                    assert(s2[i] == s[i]);
                                }
                            }
                            assert forall|i: int|
                                0 <= i < s2.len() implies (#[trigger] s2[i]).1.wf()
                                && s2[i].1.nonempty() by {
                                if i < s.len() {
                                    assert(s2[i] == s[i]);
                                }
                            }
                            assert forall|i: int|
                                0 <= i < s2.len() implies vstd::math::abs(
                                (#[trigger] s2[i]).0.x as int,
                            ) + vstd::math::abs(s2[i].0.y as int) < s2.len() by {
                                if i < s.len() {
                                    assert(s2[i] == s[i]);
                                    assert(vstd::math::abs(s[i].0.x as int) + vstd::math::abs(
                                        s[i].0.y as int,
                                    ) < s.len());
                                }
                            }
                        }
                        self.tiles.push((p, current));
                        placed = true;
                        proof {
                            assert(self.tiles@.subrange(0, s_in.len() as int) =~= s_in);
                            assert(self.tiles@[s_in.len() as int] == (p, current));
                        }
                        break;
                    },
                    None => {},
                }
                proof {
                    assert(forall|n: Position|
                        !fits_at(self.tiles@, current.gview(), n));
                }
                match current.next() {
                    Some(nx) => {
                        proof {
                            let cg = current.gview();
                            let crot = current.rot as nat;
                            let cfx = current.flip.0;
                            let cfy = current.flip.1;
                            assert(chain_can_place(s_in, cg, crot, cfx, cfy) == chain_can_place(
                                s_in,
                                nx.gview(),
                                nx.rot as nat,
                                nx.flip.0,
                                nx.flip.1,
                            ));
                            assert(pose_step(cg, crot, cfx, cfy) == Some(
                                (nx.gview(), nx.rot as nat, nx.flip.0, nx.flip.1),
                            ));
                            lemma_pose_reach_step(
                                t.gview(),
                                t.rot as nat,
                                t.flip.0,
                                t.flip.1,
                                cg,
                                crot,
                                cfx,
                                cfy,
                            );
                        }
                        current = nx;
                    },
                    None => {
                        proof {
                            assert(!chain_can_place(
                                s_in,
                                current.gview(),
                                current.rot as nat,
                                current.flip.0,
                                current.flip.1,
                            ));
                        }
                        break;
                    },
                }
            }
            proof {
                if placed {
                    assert(self.tiles@.subrange(0, s_in.len() as int) == s_in);
                    assert(s_in.subrange(0, s0.len() as int) == s0);
                    assert forall|i: int| 0 <= i < s0.len() implies self.tiles@[i] == s0[i] by {
                        assert(self.tiles@.subrange(0, s_in.len() as int)[i] == s_in[i]);
                        assert(s_in.subrange(0, s0.len() as int)[i] == s0[i]);
                    }
                    assert(self.tiles@.subrange(0, s0.len() as int) =~= s0);
                    // the placement condition and origin of every appended
                    // entry, the new one included
                    assert forall|j: int|
                        s0.len() <= j < self.tiles@.len() implies fits_at(
                        self.tiles@.subrange(0, j),
                        (#[trigger] self.tiles@[j]).1.gview(),
                        self.tiles@[j].0,
                    ) && placed_from(tiles@, self.tiles@[j].1) by {
                        if j < s_in.len() {
                            assert(self.tiles@[j] == s_in[j]) by {
                                assert(self.tiles@.subrange(0, s_in.len() as int)[j] == s_in[j]);
                            }
                            assert(self.tiles@.subrange(0, j) =~= s_in.subrange(0, j));
                            assert(fits_at(s_in.subrange(0, j), s_in[j].1.gview(), s_in[j].0));
                            assert(placed_from(tiles@, s_in[j].1));
                        } else {
                            assert(j == s_in.len() as int);
                            assert(self.tiles@.subrange(0, j) =~= s_in);
                            assert(*t == tiles@[idx as int]);
                            assert(placed_from(tiles@, self.tiles@[j].1));
                        }
                    }
                }
            }
            if !placed {
                let ghost rv_prev = rv@;
                rv.push(tiles[idx].clone());
                proof {
                    let k = idx as int;
                    assert(tile_like(rv@[rv@.len() - 1], tiles@[k]));
                    assert(from_list(rv@[rv@.len() - 1], tiles@));
                    if rv@.len() == k + 1 {
                        assert(rv_prev.len() == k);
                        assert(self.tiles@ == s_in);
                        assert(s_in == s0);
                        assert(seq_tile_like(rv_prev, tiles@.subrange(0, k)));
                        assert forall|j: int|
                            0 <= j < rv@.len() implies tile_like(
                            #[trigger] rv@[j],
                            tiles@.subrange(0, k + 1)[j],
                        ) by {
                            if j < k {
                                assert(tile_like(rv_prev[j], tiles@.subrange(0, k)[j]));
                                assert(tiles@.subrange(0, k)[j] == tiles@.subrange(0, k + 1)[j]);
                            } else {
                                assert(rv@[j] == rv@[rv@.len() - 1]);
                                assert(tiles@.subrange(0, k + 1)[j] == tiles@[k]);
                            }
                        }
                        assert(seq_tile_like(rv@, tiles@.subrange(0, k + 1)));
                        assert(*t == tiles@[k]);
                        assert(!chain_can_place(
                            s0,
                            tiles@[k].gview(),
                            tiles@[k].rot as nat,
                            tiles@[k].flip.0,
                            tiles@[k].flip.1,
                        ));
                    }
                }
            }
            idx = idx + 1;
        }
        proof {
            if rv@.len() == tiles@.len() {
                assert(seq_tile_like(rv@, tiles@.subrange(0, tiles@.len() as int)));
                assert(tiles@.subrange(0, tiles@.len() as int) =~= tiles@);
            }
        }
        rv
    }

    /// Sweep the worklist repeatedly until every tile is placed or a whole
    /// sweep places nothing. Every placement is a pose of a worklist tile
    /// set down at a cell that was free and edge-matching when it was
    /// inserted. The unplaced remainder is reported back; when it is not
    /// empty, no pose of any returned tile fits anywhere against the final
    /// assembly (a deadlock).
    pub fn merges(&mut self, tiles: &Vec<Tile>) -> (left: Vec<Tile>)
        requires
            old(self).wf(),
            forall|k: int|
                0 <= k < tiles@.len() ==> (#[trigger] tiles@[k]).wf() && tiles@[k].nonempty(),
            old(self).tiles@.len() + tiles@.len() < 0x1000_0000,
        ensures
            final(self).wf(),
            final(self).tiles@.subrange(0, old(self).tiles@.len() as int) == old(self).tiles@,
            final(self).tiles@.len() + left@.len() == old(self).tiles@.len() + tiles@.len(),
            forall|j: int|
                0 <= j < left@.len() ==> (#[trigger] left@[j]).wf() && left@[j].nonempty(),
            placements_valid(final(self).tiles@, old(self).tiles@.len() as int),
            forall|j: int|
                old(self).tiles@.len() <= j < final(self).tiles@.len() ==> placed_from(
                    tiles@,
                    (#[trigger] final(self).tiles@[j]).1,
                ),
            forall|k: int|
                0 <= k < left@.len() ==> !chain_can_place(
                    final(self).tiles@,
                    (#[trigger] left@[k]).gview(),
                    left@[k].rot as nat,
                    left@[k].flip.0,
                    left@[k].flip.1,
                ),
    {
        let ghost s0 = old(self).tiles@;
        let mut tiles_left = clone_tiles(tiles);
        proof {
            assert forall|k: int|
                0 <= k < tiles_left@.len() implies from_list(#[trigger] tiles_left@[k], tiles@) by {
                assert(tile_like(tiles_left@[k], tiles@[k]));
            }
        }
        loop
            invariant
                s0 == old(self).tiles@,
                self.wf(),
                self.tiles@.len() >= s0.len(),
                self.tiles@.len() + tiles_left@.len() < 0x1000_0000,
                self.tiles@.subrange(0, s0.len() as int) == s0,
                self.tiles@.len() + tiles_left@.len() == s0.len() + tiles@.len(),
                forall|k: int|
                    0 <= k < tiles_left@.len() ==> (#[trigger] tiles_left@[k]).wf()
                        && tiles_left@[k].nonempty(),
                forall|k: int|
                    0 <= k < tiles_left@.len() ==> from_list(#[trigger] tiles_left@[k], tiles@),
                placements_valid(self.tiles@, s0.len() as int),
                forall|j: int|
                    s0.len() <= j < self.tiles@.len() ==> placed_from(
                        tiles@,
                        (#[trigger] self.tiles@[j]).1,
                    ),
            decreases tiles_left@.len(),
        {
            if tiles_left.len() == 0 {
                return tiles_left;
            }
            let ghost before = self.tiles@;
            let ghost wl = tiles_left@;
            let n_before = tiles_left.len();
            let next_left = self.consume_tiles(tiles_left);
            proof {
                assert(self.tiles@.subrange(0, s0.len() as int) =~= s0) by {
                    assert(before.subrange(0, s0.len() as int) == s0);
                    assert(self.tiles@.subrange(0, before.len() as int) == before);
                    assert forall|i: int| 0 <= i < s0.len() implies self.tiles@[i] == s0[i] by {
                        assert(self.tiles@.subrange(0, before.len() as int)[i] == before[i]);
                        assert(before.subrange(0, s0.len() as int)[i] == s0[i]);
                    }
                }
                // the sweep's leftovers still mirror the original worklist
                assert forall|k: int|
                    0 <= k < next_left@.len() implies from_list(
                    #[trigger] next_left@[k],
                    tiles@,
                ) by {
                    lemma_from_list_mirrors(next_left@[k], wl, tiles@);
                }
                // entries appended earlier keep their placement condition
                // and origin; the sweep's own appendings carry theirs from
                // the sweep's contract, lifted to the original worklist
                assert forall|j: int|
                    s0.len() <= j < self.tiles@.len() implies fits_at(
                    self.tiles@.subrange(0, j),
                    (#[trigger] self.tiles@[j]).1.gview(),
                    self.tiles@[j].0,
                ) && placed_from(tiles@, self.tiles@[j].1) by {
                    if j < before.len() {
                        assert(self.tiles@[j] == before[j]) by {
                            assert(self.tiles@.subrange(0, before.len() as int)[j] == before[j]);
                        }
                        assert(self.tiles@.subrange(0, j) =~= before.subrange(0, j)) by {
                            assert forall|i: int|
                                0 <= i < j implies self.tiles@.subrange(0, j)[i] == before.subrange(
                                0,
                                j,
                            )[i] by {
                                assert(self.tiles@.subrange(0, before.len() as int)[i]
                                    == before[i]);
                            }
                        }
                        assert(fits_at(before.subrange(0, j), before[j].1.gview(), before[j].0));
                        assert(placed_from(tiles@, before[j].1));
                    } else {
                        assert(fits_at(
                            self.tiles@.subrange(0, j),
                            self.tiles@[j].1.gview(),
                            self.tiles@[j].0,
                        ));
                        assert(placed_from(wl, self.tiles@[j].1));
                        lemma_placed_from_mirrors(wl, tiles@, self.tiles@[j].1);
                    }
                }
            }
            if next_left.len() == n_before {
                proof {
                    assert(self.tiles@ == before);
                    assert forall|k: int|
                        0 <= k < next_left@.len() implies !chain_can_place(
                        self.tiles@,
                        (#[trigger] next_left@[k]).gview(),
                        next_left@[k].rot as nat,
                        next_left@[k].flip.0,
                        next_left@[k].flip.1,
                    ) by {
                        assert(tile_like(next_left@[k], wl[k]));
                        assert(!chain_can_place(
                            before,
                            wl[k].gview(),
                            wl[k].rot as nat,
                            wl[k].flip.0,
                            wl[k].flip.1,
                        ));
                    }
                }
                return next_left;
            }
            tiles_left = next_left;
        }
    }
}

/// The x coordinates of all placed cells.
pub open spec fn xs_of(s: Seq<(Position, Tile)>) -> Seq<int> {
    s.map(|i: int, e: (Position, Tile)| e.0.x as int)
}

/// The y coordinates of all placed cells.
pub open spec fn ys_of(s: Seq<(Position, Tile)>) -> Seq<int> {
    s.map(|i: int, e: (Position, Tile)| e.0.y as int)
}

/// The tile placed in cell `p` (meaningful when `p` is occupied and cells
/// are distinct).
pub open spec fn tile_at(s: Seq<(Position, Tile)>, p: Position) -> Tile {
    s[choose|i: int| 0 <= i < s.len() && (#[trigger] s[i]).0 == p].1
}

/// With distinct cells, any entry holding `p` is the entry `tile_at` picks.
pub proof fn lemma_tile_at_unique(s: Seq<(Position, Tile)>, p: Position, i: int)
    requires
        forall|a: int, b: int| 0 <= a < b < s.len() ==> (#[trigger] s[a]).0 != (#[trigger] s[b]).0,
        0 <= i < s.len(),
        s[i].0 == p,
    ensures
        tile_at(s, p) == s[i].1,
{
    let j = choose|j: int| 0 <= j < s.len() && (#[trigger] s[j]).0 == p;
    assert(0 <= j < s.len() && s[j].0 == p);
    if i < j {
        assert(s[i].0 != s[j].0);
    } else if j < i {
        assert(s[j].0 != s[i].0);
    }
}

/// The four corner cells of the bounding rectangle of the placed tiles.
pub open spec fn corner_tl(s: Seq<(Position, Tile)>) -> Position {
    Position { x: xs_of(s).min() as i32, y: ys_of(s).min() as i32 }
}

pub open spec fn corner_tr(s: Seq<(Position, Tile)>) -> Position {
    Position { x: xs_of(s).max() as i32, y: ys_of(s).min() as i32 }
}

pub open spec fn corner_bl(s: Seq<(Position, Tile)>) -> Position {
    Position { x: xs_of(s).min() as i32, y: ys_of(s).max() as i32 }
}

pub open spec fn corner_br(s: Seq<(Position, Tile)>) -> Position {
    Position { x: xs_of(s).max() as i32, y: ys_of(s).max() as i32 }
}

/// The ids of the tiles present in row `y`, for cells x0 <= x < x1 in
/// increasing x order; absent cells are skipped.
pub open spec fn ids_in_row(s: Seq<(Position, Tile)>, y: int, x0: int, x1: int) -> Seq<usize>
    decreases x1 - x0,
{
    if x0 >= x1 {
        Seq::empty()
    } else {
        let rest = ids_in_row(s, y, x0 + 1, x1);
        if occupied(s, Position { x: x0 as i32, y: y as i32 }) {
            seq![tile_at(s, Position { x: x0 as i32, y: y as i32 }).id] + rest
        } else {
            rest
        }
    }
}

/// Extending the scanned range by one cell appends that cell's id, if any.
proof fn lemma_ids_in_row_snoc(s: Seq<(Position, Tile)>, y: int, x0: int, x1: int)
    requires
        x0 <= x1,
    ensures
        ids_in_row(s, y, x0, x1 + 1) =~= ids_in_row(s, y, x0, x1) + (if occupied(
            s,
            Position { x: x1 as i32, y: y as i32 },
        ) {
            seq![tile_at(s, Position { x: x1 as i32, y: y as i32 }).id]
        } else {
            Seq::empty()
        }),
    decreases x1 - x0,
{
    let last = if occupied(s, Position { x: x1 as i32, y: y as i32 }) {
        seq![tile_at(s, Position { x: x1 as i32, y: y as i32 }).id]
    } else {
        Seq::<usize>::empty()
    };
    if x0 < x1 {
        lemma_ids_in_row_snoc(s, y, x0 + 1, x1);
        let head = if occupied(s, Position { x: x0 as i32, y: y as i32 }) {
            seq![tile_at(s, Position { x: x0 as i32, y: y as i32 }).id]
        } else {
            Seq::<usize>::empty()
        };
        assert(ids_in_row(s, y, x0, x1 + 1) == head + ids_in_row(s, y, x0 + 1, x1 + 1));
        assert(ids_in_row(s, y, x0 + 1, x1 + 1) =~= ids_in_row(s, y, x0 + 1, x1) + last);
        assert(ids_in_row(s, y, x0, x1) == head + ids_in_row(s, y, x0 + 1, x1));
        assert(head + (ids_in_row(s, y, x0 + 1, x1) + last) =~= (head + ids_in_row(
            s,
            y,
            x0 + 1,
            x1,
        )) + last);
    } else {
        assert(ids_in_row(s, y, x1, x1 + 1) == last + ids_in_row(s, y, x1 + 1, x1 + 1));
        assert(ids_in_row(s, y, x1 + 1, x1 + 1) =~= Seq::<usize>::empty());
        assert(ids_in_row(s, y, x0, x1) =~= Seq::<usize>::empty());
    }
}

impl Group {
    /// The smallest x coordinate among the placed cells.
    pub fn start_x(&self) -> (r: i32)
        requires
            self.wf(),
        ensures
            r as int == xs_of(self.tiles@).min(),
    {
        let ghost s = self.tiles@;
        let mut cur: i32 = self.tiles[0].0.x;
        let mut i: usize = 1;
        let n = self.tiles.len();
        while i < n
            invariant
                1 <= i <= n,
                n == s.len(),
                s == self.tiles@,
                exists|j: int| 0 <= j < i && (#[trigger] s[j]).0.x == cur,
                forall|j: int| 0 <= j < i ==> cur <= (#[trigger] s[j]).0.x,
            decreases n - i,
        {
            if self.tiles[i].0.x < cur {
                cur = self.tiles[i].0.x;
            }
            i = i + 1;
        }
        proof {
            let xs = xs_of(s);
            xs.min_ensures();
            let j = choose|j: int| 0 <= j < s.len() && (#[trigger] s[j]).0.x == cur;
            assert(xs[j] == s[j].0.x as int);
            let k = choose|k: int| 0 <= k < xs.len() && xs[k] == xs.min();
            assert(xs.contains(xs.min()));
            assert(xs[k] == xs.min() && s[k].0.x as int == xs[k]);
        }
        cur
    }

    /// The smallest y coordinate among the placed cells.
    pub fn start_y(&self) -> (r: i32)
        requires
            self.wf(),
        ensures
            r as int == ys_of(self.tiles@).min(),
    {
        let ghost s = self.tiles@;
        let mut cur: i32 = self.tiles[0].0.y;
        let mut i: usize = 1;
        let n = self.tiles.len();
        while i < n
            invariant
                1 <= i <= n,
                n == s.len(),
                s == self.tiles@,
                exists|j: int| 0 <= j < i && (#[trigger] s[j]).0.y == cur,
                forall|j: int| 0 <= j < i ==> cur <= (#[trigger] s[j]).0.y,
            decreases n - i,
        {
            if self.tiles[i].0.y < cur {
                cur = self.tiles[i].0.y;
            }
            i = i + 1;
        }
        proof {
            let ys = ys_of(s);
            ys.min_ensures();
            let j = choose|j: int| 0 <= j < s.len() && (#[trigger] s[j]).0.y == cur;
            assert(ys[j] == s[j].0.y as int);
            let k = choose|k: int| 0 <= k < ys.len() && ys[k] == ys.min();
            assert(ys.contains(ys.min()));
            assert(ys[k] == ys.min() && s[k].0.y as int == ys[k]);
        }
        cur
    }

    /// The largest x coordinate among the placed cells.
    pub fn end_x(&self) -> (r: i32)
        requires
            self.wf(),
        ensures
            r as int == xs_of(self.tiles@).max(),
    {
        let ghost s = self.tiles@;
        let mut cur: i32 = self.tiles[0].0.x;
        let mut i: usize = 1;
        let n = self.tiles.len();
        while i < n
            invariant
                1 <= i <= n,
                n == s.len(),
                s == self.tiles@,
                exists|j: int| 0 <= j < i && (#[trigger] s[j]).0.x == cur,
                forall|j: int| 0 <= j < i ==> cur >= (#[trigger] s[j]).0.x,
            decreases n - i,
        {
            if self.tiles[i].0.x > cur {
                cur = self.tiles[i].0.x;
            }
            i = i + 1;
        }
        proof {
            let xs = xs_of(s);
            xs.max_ensures();
            let j = choose|j: int| 0 <= j < s.len() && (#[trigger] s[j]).0.x == cur;
            assert(xs[j] == s[j].0.x as int);
            let k = choose|k: int| 0 <= k < xs.len() && xs[k] == xs.max();
            assert(xs.contains(xs.max()));
            assert(xs[k] == xs.max() && s[k].0.x as int == xs[k]);
        }
        cur
    }

    /// The largest y coordinate among the placed cells.
    pub fn end_y(&self) -> (r: i32)
        requires
            self.wf(),
        ensures
            r as int == ys_of(self.tiles@).max(),
    {
        let ghost s = self.tiles@;
        let mut cur: i32 = self.tiles[0].0.y;
        let mut i: usize = 1;
        let n = self.tiles.len();
        while i < n
            invariant
                1 <= i <= n,
                n == s.len(),
                s == self.tiles@,
                exists|j: int| 0 <= j < i && (#[trigger] s[j]).0.y == cur,
                forall|j: int| 0 <= j < i ==> cur >= (#[trigger] s[j]).0.y,
            decreases n - i,
        {
            if self.tiles[i].0.y > cur {
                cur = self.tiles[i].0.y;
            }
            i = i + 1;
        }
        proof {
            let ys = ys_of(s);
            ys.max_ensures();
            let j = choose|j: int| 0 <= j < s.len() && (#[trigger] s[j]).0.y == cur;
            assert(ys[j] == s[j].0.y as int);
            let k = choose|k: int| 0 <= k < ys.len() && ys[k] == ys.max();
            assert(ys.contains(ys.max()));
            assert(ys[k] == ys.max() && s[k].0.y as int == ys[k]);
        }
        cur
    }

    /// The id of the tile in cell `p`.
    fn id_at(&self, p: Position) -> (r: usize)
        requires
            self.wf(),
            occupied(self.tiles@, p),
        ensures
            r == tile_at(self.tiles@, p).id,
    {
        match self.find_pos(&p) {
            Some(i) => {
                proof {
                    lemma_tile_at_unique(self.tiles@, p, i as int);
                }
                self.tiles[i].1.id
            },
            None => vstd::pervasive::unreached(),
        }
    }

    /// The product of the ids of the four tiles in the corners of the
    /// bounding rectangle. Meaningful once assembly is complete, which is
    /// when all four corners are occupied.
    pub fn checksum(&self) -> (r: usize)
        requires
            self.wf(),
            occupied(self.tiles@, corner_tl(self.tiles@)),
            occupied(self.tiles@, corner_tr(self.tiles@)),
            occupied(self.tiles@, corner_bl(self.tiles@)),
            occupied(self.tiles@, corner_br(self.tiles@)),
            tile_at(self.tiles@, corner_tl(self.tiles@)).id * tile_at(
                self.tiles@,
                corner_tr(self.tiles@),
            ).id <= usize::MAX,
            tile_at(self.tiles@, corner_tl(self.tiles@)).id * tile_at(
                self.tiles@,
                corner_tr(self.tiles@),
            ).id * tile_at(self.tiles@, corner_bl(self.tiles@)).id <= usize::MAX,
            tile_at(self.tiles@, corner_tl(self.tiles@)).id * tile_at(
                self.tiles@,
                corner_tr(self.tiles@),
            ).id * tile_at(self.tiles@, corner_bl(self.tiles@)).id * tile_at(
                self.tiles@,
                corner_br(self.tiles@),
            ).id <= usize::MAX,
        ensures
            r == tile_at(self.tiles@, corner_tl(self.tiles@)).id * tile_at(
                self.tiles@,
                corner_tr(self.tiles@),
            ).id * tile_at(self.tiles@, corner_bl(self.tiles@)).id * tile_at(
                self.tiles@,
                corner_br(self.tiles@),
            ).id,
    {
        let sx = self.start_x();
        let sy = self.start_y();
        let ex = self.end_x();
        let ey = self.end_y();
        let a = self.id_at(Position { x: sx, y: sy });
        let b = self.id_at(Position { x: ex, y: sy });
        let c = self.id_at(Position { x: sx, y: ey });
        let d = self.id_at(Position { x: ex, y: ey });
        proof {
            let s = self.tiles@;
            let ab = tile_at(s, corner_tl(s)).id * tile_at(s, corner_tr(s)).id;
            let abc = ab * tile_at(s, corner_bl(s)).id;
            assert(a * b == ab);
            assert(a * b * c == abc) by (nonlinear_arith)
                requires
                    a * b == ab,
                    c == tile_at(s, corner_bl(s)).id,
                    abc == ab * tile_at(s, corner_bl(s)).id,
            ;
            assert(a * b * c * d == abc * tile_at(s, corner_br(s)).id) by (nonlinear_arith)
                requires
                    a * b * c == abc,
                    d == tile_at(s, corner_br(s)).id,
            ;
        }
        a * b * c * d
    }

    /// The placed tiles' ids, row by row over the bounding rectangle in
    /// reading order; absent cells are skipped.
    pub fn validation(&self) -> (r: Vec<Vec<usize>>)
        requires
            self.wf(),
            self.tiles@.len() < 0x1000_0000,
        ensures
            r@.len() == ys_of(self.tiles@).max() - ys_of(self.tiles@).min() + 1,
            forall|k: int|
                0 <= k < r@.len() ==> (#[trigger] r@[k])@ == ids_in_row(
                    self.tiles@,
                    ys_of(self.tiles@).min() + k,
                    xs_of(self.tiles@).min(),
                    xs_of(self.tiles@).max() + 1,
                ),
    {
        let ghost s = self.tiles@;
        let sx = self.start_x();
        let sy = self.start_y();
        let ex = self.end_x();
        let ey = self.end_y();
        proof {
            let xs = xs_of(s);
            let ys = ys_of(s);
            xs.min_ensures();
            xs.max_ensures();
            ys.min_ensures();
            ys.max_ensures();
            assert(xs.contains(xs.min()) && xs.contains(xs.max()));
            assert(ys.contains(ys.min()) && ys.contains(ys.max()));
            let k0 = choose|k: int| 0 <= k < xs.len() && xs[k] == xs.min();
            assert(xs[k0] <= xs.max());
            let k1 = choose|k: int| 0 <= k < ys.len() && ys[k] == ys.min();
            assert(ys[k1] <= ys.max());
            let k2 = choose|k: int| 0 <= k < ys.len() && ys[k] == ys.max();
            assert(ys[k2] == s[k2].0.y as int);
            assert(vstd::math::abs(s[k2].0.x as int) + vstd::math::abs(s[k2].0.y as int)
                < s.len());
            let k3 = choose|k: int| 0 <= k < xs.len() && xs[k] == xs.max();
            assert(xs[k3] == s[k3].0.x as int);
            assert(vstd::math::abs(s[k3].0.x as int) + vstd::math::abs(s[k3].0.y as int)
                < s.len());
        }
        let mut r: Vec<Vec<usize>> = Vec::new();
        let mut y: i32 = sy;
        while y <= ey
            invariant
                s == self.tiles@,
                self.wf(),
                sx as int == xs_of(s).min(),
                sy as int == ys_of(s).min(),
                ex as int == xs_of(s).max(),
                ey as int == ys_of(s).max(),
                sx <= ex,
                sy <= y <= ey + 1,
                ey < i32::MAX,
                ex < i32::MAX,
                r@.len() == y - sy,
                forall|k: int|
                    0 <= k < r@.len() ==> (#[trigger] r@[k])@ == ids_in_row(
                        s,
                        sy + k,
                        sx as int,
                        ex + 1,
                    ),
            decreases ey + 1 - y,
        {
            let mut line: Vec<usize> = Vec::new();
            let mut x: i32 = sx;
            proof {
                assert(ids_in_row(s, y as int, sx as int, sx as int) =~= Seq::<usize>::empty());
            }
            while x <= ex
                invariant
                    s == self.tiles@,
                    self.wf(),
                    sx <= x <= ex + 1,
                    ex < i32::MAX,
                    sy <= y <= ey,
                    line@ == ids_in_row(s, y as int, sx as int, x as int),
                decreases ex + 1 - x,
            {
                match self.find_pos(&Position { x, y }) {
                    Some(i) => {
                        proof {
                            lemma_tile_at_unique(s, Position { x, y }, i as int);
                        }
                        line.push(self.tiles[i].1.id);
                    },
                    None => {},
                }
                proof {
                    lemma_ids_in_row_snoc(s, y as int, sx as int, x as int);
                    assert(line@ =~= ids_in_row(s, y as int, sx as int, x + 1));
                }
                x = x + 1;
            }
            r.push(line);
            y = y + 1;
        }
        r
    }
}

/// Copies of all tiles of a list, in the same poses.
pub fn clone_tiles(ts: &Vec<Tile>) -> (r: Vec<Tile>)
    ensures
        seq_tile_like(r@, ts@),
        forall|j: int|
            0 <= j < r@.len() ==> ((#[trigger] r@[j]).wf() == ts@[j].wf() && r@[j].nonempty()
                == ts@[j].nonempty()),
{
    let mut r: Vec<Tile> = Vec::new();
    let mut i: usize = 0;
    let n = ts.len();
    while i < n
        invariant
            i <= n,
            n == ts@.len(),
            r@.len() == i,
            forall|j: int| 0 <= j < i ==> tile_like(#[trigger] r@[j], ts@[j]),
        decreases n - i,
    {
        r.push(ts[i].clone());
        i = i + 1;
    }
    r
}


/// All tiles share the same dimensions.
pub open spec fn uniform_dims(s: Seq<(Position, Tile)>, h: int, w: int) -> bool {
    forall|i: int|
        0 <= i < s.len() ==> (#[trigger] s[i]).1.gview().len() == h && grid_width(s[i].1.gview())
            == w
}

/// Every cell of the bounding rectangle holds a tile: assembly is complete.
pub open spec fn complete_rect(s: Seq<(Position, Tile)>) -> bool {
    forall|x: int, y: int|
        #![trigger occupied(s, Position { x: x as i32, y: y as i32 })]
        xs_of(s).min() <= x <= xs_of(s).max() && ys_of(s).min() <= y <= ys_of(s).max()
            ==> occupied(s, Position { x: x as i32, y: y as i32 })
}

/// One row of the stitched image: the cells of row `j` of each tile in
/// grid row `ty`, borders dropped, concatenated left to right.
pub open spec fn image_line(s: Seq<(Position, Tile)>, ty: int, j: int, x0: int, x1: int) -> Seq<
    bool,
>
    decreases x1 - x0,
{
    if x0 >= x1 {
        Seq::empty()
    } else {
        let t = tile_at(s, Position { x: x0 as i32, y: ty as i32 });
        t.gview()[j].subrange(1, grid_width(t.gview()) - 1) + image_line(s, ty, j, x0 + 1, x1)
    }
}

proof fn lemma_image_line_snoc(s: Seq<(Position, Tile)>, ty: int, j: int, x0: int, x1: int)
    requires
        x0 <= x1,
    ensures
        image_line(s, ty, j, x0, x1 + 1) =~= image_line(s, ty, j, x0, x1) + ({
            let t = tile_at(s, Position { x: x1 as i32, y: ty as i32 });
            t.gview()[j].subrange(1, grid_width(t.gview()) - 1)
        }),
    decreases x1 - x0,
{
    let last = {
        let t = tile_at(s, Position { x: x1 as i32, y: ty as i32 });
        t.gview()[j].subrange(1, grid_width(t.gview()) - 1)
    };
    if x0 < x1 {
        lemma_image_line_snoc(s, ty, j, x0 + 1, x1);
        let head = {
            let t = tile_at(s, Position { x: x0 as i32, y: ty as i32 });
            t.gview()[j].subrange(1, grid_width(t.gview()) - 1)
        };
        assert(image_line(s, ty, j, x0, x1 + 1) == head + image_line(s, ty, j, x0 + 1, x1 + 1));
        assert(image_line(s, ty, j, x0 + 1, x1 + 1) =~= image_line(s, ty, j, x0 + 1, x1) + last);
        assert(head + (image_line(s, ty, j, x0 + 1, x1) + last) =~= (head + image_line(
            s,
            ty,
            j,
            x0 + 1,
            x1,
        )) + last);
    } else {
        assert(image_line(s, ty, j, x1 + 1, x1 + 1) =~= Seq::<bool>::empty());
        assert(image_line(s, ty, j, x0, x1) =~= Seq::<bool>::empty());
    }
}

impl Group {
    /// Stitch the composite image: every placed tile loses its one-cell
    /// border and the interiors are concatenated in grid order.
    pub fn image(&self) -> (r: Vec<Vec<bool>>)
        requires
            self.wf(),
            self.tiles@.len() < 0x1000_0000,
            uniform_dims(
                self.tiles@,
                self.tiles@[0].1.gview().len() as int,
                grid_width(self.tiles@[0].1.gview()) as int,
            ),
            self.tiles@[0].1.gview().len() >= 3,
            grid_width(self.tiles@[0].1.gview()) >= 3,
            complete_rect(self.tiles@),
        ensures
            ({
                let s = self.tiles@;
                let h = s[0].1.gview().len() as int;
                let sy = ys_of(s).min();
                let ey = ys_of(s).max();
                &&& r@.len() == (ey - sy + 1) * (h - 2)
                &&& forall|yy: int|
                    0 <= yy < r@.len() ==> (#[trigger] r@[yy])@ == image_line(
                        s,
                        sy + yy / (h - 2),
                        1 + yy % (h - 2),
                        xs_of(s).min(),
                        xs_of(s).max() + 1,
                    )
            }),
    {
        let ghost s = self.tiles@;
        let h = self.tiles[0].1.height();
        let w = self.tiles[0].1.width();
        let sx = self.start_x();
        let sy = self.start_y();
        let ex = self.end_x();
        let ey = self.end_y();
        proof {
            let xs = xs_of(s);
            let ys = ys_of(s);
            xs.min_ensures();
            xs.max_ensures();
            ys.min_ensures();
            ys.max_ensures();
            assert(xs.contains(xs.min()) && xs.contains(xs.max()));
            assert(ys.contains(ys.min()) && ys.contains(ys.max()));
            let k0 = choose|k: int| 0 <= k < xs.len() && xs[k] == xs.min();
            assert(xs[k0] <= xs.max());
            let k1 = choose|k: int| 0 <= k < ys.len() && ys[k] == ys.min();
            assert(ys[k1] <= ys.max());
            let k2 = choose|k: int| 0 <= k < ys.len() && ys[k] == ys.max();
            assert(ys[k2] == s[k2].0.y as int);
            assert(vstd::math::abs(s[k2].0.x as int) + vstd::math::abs(s[k2].0.y as int)
                < s.len());
            let k3 = choose|k: int| 0 <= k < xs.len() && xs[k] == xs.max();
            assert(xs[k3] == s[k3].0.x as int);
            assert(vstd::math::abs(s[k3].0.x as int) + vstd::math::abs(s[k3].0.y as int)
                < s.len());
        }
        let mut r: Vec<Vec<bool>> = Vec::new();
        let mut ty: i32 = sy;
        while ty <= ey
            invariant
                s == self.tiles@,
                self.wf(),
                s.len() < 0x1000_0000,
                uniform_dims(s, h as int, w as int),
                h == s[0].1.gview().len(),
                w == grid_width(s[0].1.gview()),
                h >= 3,
                w >= 3,
                complete_rect(s),
                sx as int == xs_of(s).min(),
                sy as int == ys_of(s).min(),
                ex as int == xs_of(s).max(),
                ey as int == ys_of(s).max(),
                sx <= ex,
                sy <= ty <= ey + 1,
                ey < i32::MAX,
                ex < i32::MAX,
                r@.len() == (ty - sy) * (h - 2),
                forall|yy: int|
                    0 <= yy < r@.len() ==> (#[trigger] r@[yy])@ == image_line(
                        s,
                        sy + yy / (h as int - 2),
                        1 + yy % (h as int - 2),
                        sx as int,
                        ex as int + 1,
                    ),
            decreases ey + 1 - ty,
        {
            let mut j: usize = 1;
            while j < h - 1
                invariant
                    1 <= j <= h - 1,
                    s == self.tiles@,
                    self.wf(),
                    s.len() < 0x1000_0000,
                    uniform_dims(s, h as int, w as int),
                    h == s[0].1.gview().len(),
                    w == grid_width(s[0].1.gview()),
                    h >= 3,
                    w >= 3,
                    complete_rect(s),
                    sx as int == xs_of(s).min(),
                    sy as int == ys_of(s).min(),
                    ex as int == xs_of(s).max(),
                    ey as int == ys_of(s).max(),
                    sx <= ex,
                    sy <= ty <= ey,
                    ey < i32::MAX,
                    ex < i32::MAX,
                    r@.len() == (ty - sy) * (h - 2) + (j - 1),
                    forall|yy: int|
                        0 <= yy < r@.len() ==> (#[trigger] r@[yy])@ == image_line(
                            s,
                            sy + yy / (h as int - 2),
                            1 + yy % (h as int - 2),
                            sx as int,
                            ex as int + 1,
                        ),
                decreases h - 1 - j,
            {
                let mut line: Vec<bool> = Vec::new();
                let mut x: i32 = sx;
                proof {
                    assert(image_line(s, ty as int, j as int, sx as int, sx as int)
                        =~= Seq::<bool>::empty());
                }
                while x <= ex
                    invariant
                        1 <= j < h,
                        s == self.tiles@,
                        self.wf(),
                        uniform_dims(s, h as int, w as int),
                        h >= 3,
                        w >= 3,
                        complete_rect(s),
                        sx as int == xs_of(s).min(),
                        sy as int == ys_of(s).min(),
                        ex as int == xs_of(s).max(),
                        ey as int == ys_of(s).max(),
                        sx <= x <= ex + 1,
                        sy <= ty <= ey,
                        ex < i32::MAX,
                        line@ == image_line(s, ty as int, j as int, sx as int, x as int),
                    decreases ex + 1 - x,
                {
                    proof {
                        assert(occupied(
                            s,
                            Position { x: (x as int) as i32, y: (ty as int) as i32 },
                        ));
                        assert(Position { x: (x as int) as i32, y: (ty as int) as i32 }
                            == (Position { x: x, y: ty }));
                    }
                    let idx = match self.find_pos(&Position { x, y: ty }) {
                        Some(i) => i,
                        None => vstd::pervasive::unreached(),
                    };
                    proof {
                        lemma_tile_at_unique(s, Position { x: x, y: ty }, idx as int);
                        assert(s[idx as int].1.gview().len() == h && grid_width(
                            s[idx as int].1.gview(),
                        ) == w);
                    }
                    let tile = &self.tiles[idx].1;
                    let mut xx: usize = 1;
                    let ghost row = tile.gview()[j as int];
                    proof {
                        assert(row.len() == w);
                    }
                    while xx < w - 1
                        invariant
                            1 <= xx <= w - 1,
                            w >= 3,
                            tile.wf(),
                            j < tile.gview().len(),
                            row == tile.gview()[j as int],
                            row.len() == w,
                            w == grid_width(tile.gview()),
                            line@ == image_line(s, ty as int, j as int, sx as int, x as int)
                                + row.subrange(1, xx as int),
                        decreases w - 1 - xx,
                    {
                        proof {
                            assert(tile.gview()[j as int].len() == grid_width(tile.gview()));
                        }
                        line.push(tile.grid[j][xx]);
                        proof {
                            assert(line@ =~= image_line(s, ty as int, j as int, sx as int, x as int)
                                + row.subrange(1, xx + 1));
                        }
                        xx = xx + 1;
                    }
                    proof {
                        lemma_image_line_snoc(s, ty as int, j as int, sx as int, x as int);
                        assert(tile_at(s, Position { x: x, y: ty }) == s[idx as int].1);
                        assert(line@ =~= image_line(s, ty as int, j as int, sx as int, x + 1));
                    }
                    x = x + 1;
                }
                let ghost prev_len = r@.len() as int;
                r.push(line);
                proof {
                    let d = h as int - 2;
                    let yy0 = prev_len;
                    assert(yy0 == (ty - sy) * d + (j - 1));
                    vstd::arithmetic::div_mod::lemma_fundamental_div_mod_converse(
                        yy0,
                        d,
                        ty as int - sy as int,
                        j as int - 1,
                    );
                    assert(yy0 / d == ty - sy && yy0 % d == j - 1);
                    assert(r@[yy0]@ == image_line(
                        s,
                        sy + yy0 / d,
                        1 + yy0 % d,
                        sx as int,
                        ex as int + 1,
                    ));
                }
                j = j + 1;
            }
            proof {
                assert((ty - sy) * (h as int - 2) + (h as int - 2) == (ty + 1 - sy) * (h as int
                    - 2)) by (nonlinear_arith);
            }
            ty = ty + 1;
        }
        proof {
            assert((ey + 1 - sy) * (h as int - 2) == (ey as int - sy as int + 1) * (h as int - 2));
        }
        r
    }
}


/// The cells one text row denotes: `#` is filled.
pub open spec fn row_of_text(s: Seq<char>) -> Seq<bool> {
    Seq::new(s.len(), |x: int| s[x] == '#')
}

/// The line opens like a tile header.
pub open spec fn starts_tile(s: Seq<char>) -> bool {
    s.len() >= 5 && s[0] == 'T' && s[1] == 'i' && s[2] == 'l' && s[3] == 'e' && s[4] == ' '
}

/// A full tile header: `Tile <digits>:`.
pub open spec fn header_ok(s: Seq<char>) -> bool {
    &&& s.len() >= 7
    &&& starts_tile(s)
    &&& s.last() == ':'
    &&& crate::text::all_digits(s.subrange(5, s.len() - 1))
    &&& crate::text::digits_value(s.subrange(5, s.len() - 1)) <= usize::MAX
}

pub open spec fn header_id(s: Seq<char>) -> int {
    crate::text::digits_value(s.subrange(5, s.len() - 1))
}

/// The tiles a block of text lines denotes: blocks of rows under `Tile N:`
/// headers, separated by blank lines. A blank line closes the tile
/// gathered so far; a bad header spoils the whole text.
pub open spec fn spec_parse_tiles(
    lines: Seq<Seq<char>>,
    i: int,
    cur_id: usize,
    cur_rows: Seq<Seq<bool>>,
) -> Option<Seq<(usize, Seq<Seq<bool>>)>>
    decreases lines.len() - i,
{
    if i < 0 || i >= lines.len() {
        if cur_rows.len() > 0 {
            Some(seq![(cur_id, cur_rows)])
        } else {
            Some(Seq::empty())
        }
    } else if lines[i].len() == 0 {
        match spec_parse_tiles(lines, i + 1, 0, Seq::empty()) {
            Some(rest) => Some(seq![(cur_id, cur_rows)] + rest),
            None => None,
        }
    } else if starts_tile(lines[i]) {
        if header_ok(lines[i]) {
            spec_parse_tiles(lines, i + 1, header_id(lines[i]) as usize, cur_rows)
        } else {
            None
        }
    } else {
        spec_parse_tiles(lines, i + 1, cur_id, cur_rows.push(row_of_text(lines[i])))
    }
}

impl Group {
    /// The corner-product checksum, when it is defined: all four corners
    /// of the bounding rectangle must be occupied and the product must fit.
    pub fn try_checksum(&self) -> (r: Option<usize>)
        requires
            self.wf(),
        ensures
            r is Some <==> (occupied(self.tiles@, corner_tl(self.tiles@)) && occupied(
                self.tiles@,
                corner_tr(self.tiles@),
            ) && occupied(self.tiles@, corner_bl(self.tiles@)) && occupied(
                self.tiles@,
                corner_br(self.tiles@),
            ) && tile_at(self.tiles@, corner_tl(self.tiles@)).id * tile_at(
                self.tiles@,
                corner_tr(self.tiles@),
            ).id <= usize::MAX && tile_at(self.tiles@, corner_tl(self.tiles@)).id * tile_at(
                self.tiles@,
                corner_tr(self.tiles@),
            ).id * tile_at(self.tiles@, corner_bl(self.tiles@)).id <= usize::MAX && tile_at(
                self.tiles@,
                corner_tl(self.tiles@),
            ).id * tile_at(self.tiles@, corner_tr(self.tiles@)).id * tile_at(
                self.tiles@,
                corner_bl(self.tiles@),
            ).id * tile_at(self.tiles@, corner_br(self.tiles@)).id <= usize::MAX),
            r matches Some(v) ==> v == tile_at(self.tiles@, corner_tl(self.tiles@)).id * tile_at(
                self.tiles@,
                corner_tr(self.tiles@),
            ).id * tile_at(self.tiles@, corner_bl(self.tiles@)).id * tile_at(
                self.tiles@,
                corner_br(self.tiles@),
            ).id,
    {
        let ghost s = self.tiles@;
        let sx = self.start_x();
        let sy = self.start_y();
        let ex = self.end_x();
        let ey = self.end_y();
        let tl = match self.find_pos(&Position { x: sx, y: sy }) {
            Some(i) => {
                proof {
                    lemma_tile_at_unique(s, Position { x: sx, y: sy }, i as int);
                }
                self.tiles[i].1.id
            },
            None => {
                return None;
            },
        };
        let tr = match self.find_pos(&Position { x: ex, y: sy }) {
            Some(i) => {
                proof {
                    lemma_tile_at_unique(s, Position { x: ex, y: sy }, i as int);
                }
                self.tiles[i].1.id
            },
            None => {
                return None;
            },
        };
        let bl = match self.find_pos(&Position { x: sx, y: ey }) {
            Some(i) => {
                proof {
                    lemma_tile_at_unique(s, Position { x: sx, y: ey }, i as int);
                }
                self.tiles[i].1.id
            },
            None => {
                return None;
            },
        };
        let br = match self.find_pos(&Position { x: ex, y: ey }) {
            Some(i) => {
                proof {
                    lemma_tile_at_unique(s, Position { x: ex, y: ey }, i as int);
                }
                self.tiles[i].1.id
            },
            None => {
                return None;
            },
        };
        let ab = match tl.checked_mul(tr) {
            Some(v) => v,
            None => {
                return None;
            },
        };
        let abc = match ab.checked_mul(bl) {
            Some(v) => v,
            None => {
                return None;
            },
        };
        proof {
            assert(ab * bl == tl * tr * bl) by (nonlinear_arith)
                requires
                    ab == tl * tr,
            ;
        }
        let abcd = match abc.checked_mul(br) {
            Some(v) => v,
            None => {
                return None;
            },
        };
        proof {
            assert(abc * br == tl * tr * bl * br) by (nonlinear_arith)
                requires
                    abc == tl * tr * bl,
            ;
        }
        Some(abcd)
    }
}

/// The characters of a flip flag, as its name.
pub open spec fn bool_chars(b: bool) -> Seq<char> {
    if b {
        seq!['t', 'r', 'u', 'e']
    } else {
        seq!['f', 'a', 'l', 's', 'e']
    }
}

/// The display name of a tile pose: id, rotation and flip flags.
pub open spec fn spec_tile_name(t: Tile) -> Seq<char> {
    crate::text::dec_digits(t.id as int) + seq!['.'] + crate::text::dec_digits(t.rot as int)
        + seq!['/', '('] + bool_chars(t.flip.0) + seq![',', ' '] + bool_chars(t.flip.1)
        + seq![')']
}

impl Tile {
    /// The tile's display name: its id and the pose it stands in, as in
    /// `1951.90/(true, false)`.
    pub fn name(&self) -> (r: Vec<char>)
        ensures
            r@ == spec_tile_name(*self),
    {
        let mut r = crate::text::usize_to_chars(self.id);
        r.push('.');
        let mut rot = crate::text::usize_to_chars(self.rot);
        r.append(&mut rot);
        r.push('/');
        r.push('(');
        push_bool(&mut r, self.flip.0);
        r.push(',');
        r.push(' ');
        push_bool(&mut r, self.flip.1);
        r.push(')');
        proof {
            assert(r@ =~= spec_tile_name(*self));
        }
        r
    }
}

/// Append a flip flag's name.
fn push_bool(r: &mut Vec<char>, b: bool)
    ensures
        final(r)@ == old(r)@ + bool_chars(b),
{
    if b {
        r.push('t');
        r.push('r');
        r.push('u');
        r.push('e');
    } else {
        r.push('f');
        r.push('a');
        r.push('l');
        r.push('s');
        r.push('e');
    }
    proof {
        assert(r@ =~= old(r)@ + bool_chars(b));
    }
}

/// The text lines, as character sequences.
pub open spec fn line_views(lines: Seq<String>) -> Seq<Seq<char>> {
    lines.map_values(|l: String| l@)
}

/// The id and contents of each parsed tile.
pub open spec fn pairs_of(ts: Seq<Tile>) -> Seq<(usize, Seq<Seq<bool>>)> {
    ts.map_values(|t: Tile| (t.id, t.gview()))
}

/// A parsed grid the assembly can use: rectangular with both dimensions
/// positive.
pub open spec fn good_grid(g: Seq<Seq<bool>>) -> bool {
    &&& is_rect(g)
    &&& g.len() > 0
    &&& grid_width(g) > 0
}

/// Turn gathered rows into a tile, when they form a usable grid.
fn finish_tile(id: usize, rows: Vec<Vec<bool>>) -> (r: Option<Tile>)
    ensures
        match r {
            Some(t) => good_grid(view_grid(&rows)) && t.id == id && t.rot == 0 && t.flip == (
            false,
            false,
            ) && t.gview() == view_grid(&rows) && t.wf() && t.nonempty(),
            None => !good_grid(view_grid(&rows)),
        },
{
    let n = rows.len();
    if n == 0 {
        return None;
    }
    let w = rows[0].len();
    if w == 0 {
        return None;
    }
    let mut y: usize = 0;
    while y < n
        invariant
            y <= n,
            n == rows@.len(),
            n > 0,
            w == rows@[0]@.len(),
            forall|k: int| 0 <= k < y ==> (#[trigger] rows@[k])@.len() == w,
        decreases n - y,
    {
        if rows[y].len() != w {
            proof {
                assert(view_grid(&rows)[y as int].len() != grid_width(view_grid(&rows)));
            }
            return None;
        }
        y = y + 1;
    }
    proof {
        assert forall|k: int|
            0 <= k < view_grid(&rows).len() implies (#[trigger] view_grid(&rows)[k]).len()
            == grid_width(view_grid(&rows)) by {
            assert(rows@[k]@.len() == w);
        }
    }
    Some(Tile { id, grid: rows, rot: 0, flip: (false, false) })
}

/// A successful parse: the tiles line up with what the text denotes, in
/// their original pose, all usable.
pub open spec fn parse_ok(lines: Seq<String>, ts: Seq<Tile>) -> bool {
    match spec_parse_tiles(line_views(lines), 0, 0, Seq::empty()) {
        Some(ps) => ts.len() == ps.len() && (forall|k: int|
            0 <= k < ps.len() ==> (#[trigger] ts[k]).id == ps[k].0 && ts[k].gview() == ps[k].1
                && ts[k].rot == 0 && ts[k].flip == (false, false) && ts[k].wf()
                && ts[k].nonempty()),
        None => false,
    }
}

/// A rejected parse: the text denotes nothing, or denotes some tile that
/// is not a usable rectangle.
pub open spec fn parse_fails(lines: Seq<String>) -> bool {
    match spec_parse_tiles(line_views(lines), 0, 0, Seq::empty()) {
        Some(ps) => exists|k: int| 0 <= k < ps.len() && !good_grid((#[trigger] ps[k]).1),
        None => true,
    }
}

proof fn lemma_parse_fails_some(lines: Seq<String>, ps: Seq<(usize, Seq<Seq<bool>>)>, k: int)
    requires
        spec_parse_tiles(line_views(lines), 0, 0, Seq::empty()) == Some(ps),
        0 <= k < ps.len(),
        !good_grid(ps[k].1),
    ensures
        parse_fails(lines),
{
    let ps2 = spec_parse_tiles(line_views(lines), 0, 0, Seq::empty())->0;
    assert(ps2 == ps);
    assert(0 <= k < ps2.len() && !good_grid(ps2[k].1));
    assert(exists|j: int| 0 <= j < ps2.len() && !good_grid((#[trigger] ps2[j]).1));
}

proof fn lemma_parse_fails_none(lines: Seq<String>)
    requires
        spec_parse_tiles(line_views(lines), 0, 0, Seq::empty()) is None,
    ensures
        parse_fails(lines),
{
}

proof fn lemma_parse_ok(lines: Seq<String>, ts: Seq<Tile>)
    requires
        spec_parse_tiles(line_views(lines), 0, 0, Seq::empty()) == Some(pairs_of(ts)),
        forall|k: int|
            0 <= k < ts.len() ==> (#[trigger] ts[k]).rot == 0 && ts[k].flip == (false, false)
                && ts[k].wf() && ts[k].nonempty(),
    ensures
        parse_ok(lines, ts),
{
    let ps = pairs_of(ts);
    assert forall|k: int|
        0 <= k < ps.len() implies (#[trigger] ts[k]).id == ps[k].0 && ts[k].gview() == ps[k].1
            && ts[k].rot == 0 && ts[k].flip == (false, false) && ts[k].wf()
            && ts[k].nonempty() by {
        assert(ps[k] == (ts[k].id, ts[k].gview()));
    }
}

/// Parse the whole tile text. Rejected exactly when a header is malformed
/// or some gathered tile is not a usable rectangle.
pub fn parse_tiles(lines: &Vec<String>) -> (r: Option<Vec<Tile>>)
    ensures
        r matches Some(ts) ==> parse_ok(lines@, ts@),
        r is None ==> parse_fails(lines@),
{
    let ghost ls = line_views(lines@);
    let n = lines.len();
    let mut out: Vec<Tile> = Vec::new();
    let mut cur_rows: Vec<Vec<bool>> = Vec::new();
    let mut cur_id: usize = 0;
    let mut i: usize = 0;
    proof {
        assert(view_grid(&cur_rows) =~= Seq::<Seq<bool>>::empty());
        assert(pairs_of(out@) =~= Seq::<(
            usize,
            Seq<Seq<bool>>,
        )>::empty());
    }
    while i < n
        invariant
            i <= n,
            n == ls.len(),
            ls == line_views(lines@),
            forall|k: int|
                0 <= k < out@.len() ==> (#[trigger] out@[k]).rot == 0 && out@[k].flip == (
                false,
                false,
                ) && out@[k].wf() && out@[k].nonempty() && good_grid(out@[k].gview()),
            (spec_parse_tiles(ls, 0, 0, Seq::empty()) is None <==> spec_parse_tiles(
                ls,
                i as int,
                cur_id,
                view_grid(&cur_rows),
            ) is None),
            forall|rest: Seq<(usize, Seq<Seq<bool>>)>|
                #![trigger pairs_of(out@) + rest]
                spec_parse_tiles(ls, i as int, cur_id, view_grid(&cur_rows)) == Some(rest)
                    ==> spec_parse_tiles(ls, 0, 0, Seq::empty()) == Some(pairs_of(out@) + rest),
        decreases n - i,
    {
        let line = &lines[i];
        let ln = line.as_str().unicode_len();
        proof {
            assert(line@ == ls[i as int]);
        }
        if ln == 0 {
            let grid = cur_rows;
            cur_rows = Vec::new();
            let ghost gv = view_grid(&grid);
            let ghost done = pairs_of(out@);
            let ghost old_id = cur_id;
            match finish_tile(cur_id, grid) {
                Some(t) => {
                    out.push(t);
                    proof {
                        assert(pairs_of(out@) =~= done + seq![
                            (t.id, t.gview()),
                        ]);
                        assert(pairs_of(out@) =~= done + seq![(old_id, gv)]);
                        assert forall|rest2: Seq<(usize, Seq<Seq<bool>>)>|
                            #![trigger pairs_of(out@) + rest2]
                            spec_parse_tiles(ls, i + 1, 0, Seq::empty()) == Some(
                                rest2,
                            ) implies spec_parse_tiles(ls, 0, 0, Seq::empty()) == Some(
                            pairs_of(out@) + rest2,
                        ) by {
                            assert(spec_parse_tiles(ls, i as int, old_id, gv) == Some(
                                seq![(old_id, gv)] + rest2,
                            ));
                            assert(done + (seq![(old_id, gv)] + rest2) =~= pairs_of(out@) + rest2);
                        }
                    }
                },
                None => {
                    // the gathered rows are not a usable grid: if the rest
                    // of the text parses, this bad grid sits in the result
                    proof {
                        let sp = spec_parse_tiles(ls, i as int, cur_id, gv);
                        if sp is Some {
                            let rest = sp->0;
                            assert(spec_parse_tiles(ls, 0, 0, Seq::empty()) == Some(done + rest));
                            assert(rest[0] == (cur_id, gv));
                            assert((done + rest)[done.len() as int] == (cur_id, gv));
                            assert(!good_grid((done + rest)[done.len() as int].1));
                            assert(exists|k: int|
                                0 <= k < (done + rest).len() && !good_grid(
                                    (#[trigger] (done + rest)[k]).1,
                                ));
                            lemma_parse_fails_some(lines@, done + rest, done.len() as int);
                        } else {
                            assert(spec_parse_tiles(ls, 0, 0, Seq::empty()) is None);
                            lemma_parse_fails_none(lines@);
                        }
                    }
                    return None;
                },
            }
            cur_id = 0;
            proof {
                assert(view_grid(&cur_rows) =~= Seq::<Seq<bool>>::empty());
            }
        } else {
            let is_hdr = ln >= 5 && line.as_str().get_char(0) == 'T' && line.as_str().get_char(1)
                == 'i' && line.as_str().get_char(2) == 'l' && line.as_str().get_char(3) == 'e'
                && line.as_str().get_char(4) == ' ';
            proof {
                assert(is_hdr == starts_tile(ls[i as int]));
            }
            if is_hdr {
                if ln < 7 || line.as_str().get_char(ln - 1) != ':' {
                    proof {
                        assert(!header_ok(ls[i as int]));
                        assert(spec_parse_tiles(ls, i as int, cur_id, view_grid(&cur_rows))
                            is None);
                        lemma_parse_fails_none(lines@);
                    }
                    return None;
                }
                match crate::text::parse_usize_range(line.as_str(), 5, ln - 1) {
                    Some(id) => {
                        proof {
                            assert(ls[i as int].subrange(5, ls[i as int].len() - 1) == line@
                                .subrange(5, ln - 1));
                            assert(header_ok(ls[i as int]));
                            assert(id == header_id(ls[i as int]));
                        }
                        cur_id = id;
                    },
                    None => {
                        proof {
                            assert(ls[i as int].subrange(5, ls[i as int].len() - 1) == line@
                                .subrange(5, ln - 1));
                            assert(!header_ok(ls[i as int]));
                            assert(spec_parse_tiles(ls, i as int, cur_id, view_grid(&cur_rows))
                                is None);
                            lemma_parse_fails_none(lines@);
                        }
                        return None;
                    },
                }
            } else {
                let mut row: Vec<bool> = Vec::new();
                let mut x: usize = 0;
                while x < ln
                    invariant
                        x <= ln,
                        i < n,
                        n == ls.len(),
                        ln == ls[i as int].len(),
                        line@ == ls[i as int],
                        row@.len() == x,
                        forall|xx: int| 0 <= xx < x ==> row@[xx] == (ls[i as int][xx] == '#'),
                    decreases ln - x,
                {
                    row.push(line.as_str().get_char(x) == '#');
                    x = x + 1;
                }
                proof {
                    assert(row@ =~= row_of_text(ls[i as int]));
                }
                let ghost before = view_grid(&cur_rows);
                cur_rows.push(row);
                proof {
                    assert(view_grid(&cur_rows) =~= before.push(row_of_text(ls[i as int])));
                }
            }
        }
        i = i + 1;
    }
    let ghost done = pairs_of(out@);
    let ghost gv = view_grid(&cur_rows);
    if cur_rows.len() > 0 {
        match finish_tile(cur_id, cur_rows) {
            Some(t) => {
                out.push(t);
                proof {
                    assert(pairs_of(out@) =~= done + seq![
                        (t.id, t.gview()),
                    ]);
                    assert(done + seq![(t.id, t.gview())] =~= done + seq![(cur_id as usize, gv)]);
                    assert(spec_parse_tiles(ls, n as int, cur_id, gv) == Some(
                        seq![(cur_id as usize, gv)],
                    ));
                    assert(spec_parse_tiles(ls, 0, 0, Seq::empty()) == Some(
                        done + seq![(cur_id as usize, gv)],
                    ));
                    assert(spec_parse_tiles(ls, 0, 0, Seq::empty()) == Some(pairs_of(out@)));
                    lemma_parse_ok(lines@, out@);
                }
                Some(out)
            },
            None => {
                proof {
                    let sp = spec_parse_tiles(ls, n as int, cur_id, gv);
                    if sp is Some {
                        let rest = sp->0;
                        assert(spec_parse_tiles(ls, 0, 0, Seq::empty()) == Some(done + rest));
                        assert(rest[0] == (cur_id, gv));
                        assert((done + rest)[done.len() as int] == (cur_id, gv));
                        assert(!good_grid((done + rest)[done.len() as int].1));
                        assert(exists|k: int|
                            0 <= k < (done + rest).len() && !good_grid(
                                (#[trigger] (done + rest)[k]).1,
                            ));
                        lemma_parse_fails_some(lines@, done + rest, done.len() as int);
                    } else {
                        assert(spec_parse_tiles(ls, 0, 0, Seq::empty()) is None);
                        lemma_parse_fails_none(lines@);
                    }
                }
                None
            },
        }
    } else {
        proof {
            assert(spec_parse_tiles(ls, n as int, cur_id, gv) == Some(Seq::<(
                usize,
                Seq<Seq<bool>>,
            )>::empty()));
            assert(done + Seq::<(usize, Seq<Seq<bool>>)>::empty() =~= done);
            assert(spec_parse_tiles(ls, 0, 0, Seq::empty()) == Some(pairs_of(out@)));
            lemma_parse_ok(lines@, out@);
        }
        Some(out)
    }
}

} // verus!
