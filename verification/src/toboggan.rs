//! Tree counting on a toboggan ride: a grid of trees that repeats
//! horizontally, descended along fixed slopes.

use vstd::prelude::*;

verus! {

/// A grid coordinate or a slope step.
#[derive(Clone, Copy, PartialEq, Eq, Structural, Debug)]
pub struct Position {
    pub x: usize,
    pub y: usize,
}

impl Position {
    pub fn new(x: usize, y: usize) -> (r: Position)
        ensures
            r == (Position { x, y }),
    {
        Position { x, y }
    }

    /// One step down the slope.
    pub fn next_position(&self, slope: &Position) -> (r: Position)
        requires
            self.x + slope.x <= usize::MAX,
            self.y + slope.y <= usize::MAX,
        ensures
            r.x == self.x + slope.x,
            r.y == self.y + slope.y,
    {
        Position::new(self.x + slope.x, self.y + slope.y)
    }
}

/// The map of trees: row-major, `true` marks a tree. The pattern repeats
/// endlessly to the right.
pub struct TreeGrid {
    pub trees: Vec<Vec<bool>>,
}

/// A run down one slope: the slope itself, the current spot, and where the
/// map ends.
pub struct Slope {
    pub slope: Position,
    pub current_position: Position,
    pub max_height: usize,
}

/// Every row as wide as the first, and at least one non-empty row.
pub open spec fn grid_ok(g: Seq<Vec<bool>>) -> bool {
    &&& g.len() > 0
    &&& g[0]@.len() > 0
    &&& forall|i: int| 0 <= i < g.len() ==> (#[trigger] g[i])@.len() == g[0]@.len()
}

/// Trees met from row `y` on, stepping `(sx, sy)` at a time from column `x`.
pub open spec fn slope_trees(g: Seq<Vec<bool>>, x: int, y: int, sx: int, sy: int) -> int
    decreases vstd::math::max(g.len() - y, 0),
    when sy >= 1 && y >= 0
{
    if y >= g.len() {
        0
    } else {
        (if g[y]@[x % (g[0]@.len() as int)] {
            1int
        } else {
            0int
        }) + slope_trees(g, x + sx, y + sy, sx, sy)
    }
}

proof fn lemma_slope_trees_bounds(g: Seq<Vec<bool>>, x: int, y: int, sx: int, sy: int)
    requires
        sy >= 1,
        y >= 0,
    ensures
        0 <= slope_trees(g, x, y, sx, sy) <= vstd::math::max(g.len() - y, 0),
    decreases vstd::math::max(g.len() - y, 0),
{
    if y < g.len() {
        lemma_slope_trees_bounds(g, x + sx, y + sy, sx, sy);
    }
}

/// Prefix products of the tree counts over a list of slopes.
pub open spec fn slopes_product(g: Seq<Vec<bool>>, slopes: Seq<Position>, k: int) -> int
    decreases k,
{
    if k <= 0 {
        1
    } else {
        slopes_product(g, slopes, k - 1) * slope_trees(
            g,
            0,
            0,
            slopes[k - 1].x as int,
            slopes[k - 1].y as int,
        )
    }
}

impl TreeGrid {
    /// One map row read from text: `#` marks a tree.
    pub fn from_string(line: &str) -> (r: Vec<bool>)
        ensures
            r@.len() == line@.len(),
            forall|i: int| 0 <= i < r@.len() ==> r@[i] == (line@[i] == '#'),
    {
        let n = line.unicode_len();
        let mut r: Vec<bool> = Vec::new();
        let mut i: usize = 0;
        while i < n
            invariant
                i <= n,
                n == line@.len(),
                r@.len() == i,
                forall|k: int| 0 <= k < i ==> r@[k] == (line@[k] == '#'),
            decreases n - i,
        {
            r.push(line.get_char(i) == '#');
            i = i + 1;
        }
        r
    }

    pub fn start_position(&self) -> (r: Position)
        ensures
            r == (Position { x: 0, y: 0 }),
    {
        Position { x: 0, y: 0 }
    }

    pub fn width(&self) -> (r: usize)
        requires
            grid_ok(self.trees@),
        ensures
            r == self.trees@[0]@.len(),
    {
        self.trees[0].len()
    }

    pub fn height(&self) -> (r: usize)
        ensures
            r == self.trees@.len(),
    {
        self.trees.len()
    }

    /// Whether a tree stands at the spot, with the pattern repeating to the
    /// right.
    pub fn is_tree_at(&self, position: &Position) -> (r: bool)
        requires
            grid_ok(self.trees@),
            position.y < self.trees@.len(),
        ensures
            r == self.trees@[position.y as int]@[position.x as int % self.trees@[0]@.len() as int],
    {
        proof {
            assert(self.trees@[position.y as int]@.len() == self.trees@[0]@.len());
        }
        self.trees[position.y][position.x % self.width()]
    }

    /// A fresh run for the given slope.
    pub fn new_slope(&self, slope: &Position) -> (r: Slope)
        ensures
            r.slope == *slope,
            r.current_position == (Position { x: 0, y: 0 }),
            r.max_height == self.trees@.len(),
    {
        Slope {
            slope: Position { x: slope.x, y: slope.y },
            current_position: Position::new(0, 0),
            max_height: self.height(),
        }
    }

    /// How many trees the ride meets before running off the bottom.
    pub fn count_trees_on_slope(&self, slope: &Position) -> (r: usize)
        requires
            grid_ok(self.trees@),
            slope.y >= 1,
            self.trees@.len() * slope.x + slope.x <= usize::MAX,
            self.trees@.len() + slope.y <= usize::MAX,
        ensures
            r == slope_trees(self.trees@, 0, 0, slope.x as int, slope.y as int),
    {
        let ghost g = self.trees@;
        let mut tree_count: usize = 0;
        let mut current = self.start_position();
        let height = self.height();
        proof {
            lemma_slope_trees_bounds(g, 0, 0, slope.x as int, slope.y as int);
        }
        while current.y < height
            invariant
                g == self.trees@,
                grid_ok(g),
                slope.y >= 1,
                g.len() * slope.x + slope.x <= usize::MAX,
                g.len() + slope.y <= usize::MAX,
                current.x <= current.y * slope.x,
                current.y <= g.len() + slope.y,
                height == g.len(),
                tree_count + slope_trees(
                    g,
                    current.x as int,
                    current.y as int,
                    slope.x as int,
                    slope.y as int,
                ) == slope_trees(g, 0, 0, slope.x as int, slope.y as int),
                tree_count >= 0,
            decreases g.len() + slope.y - current.y,
        {
            let ghost cx = current.x as int;
            let ghost cy = current.y as int;
            proof {
                lemma_slope_trees_bounds(g, 0, 0, slope.x as int, slope.y as int);
                lemma_slope_trees_bounds(
                    g,
                    cx + slope.x,
                    cy + slope.y,
                    slope.x as int,
                    slope.y as int,
                );
                assert(slope_trees(g, cx, cy, slope.x as int, slope.y as int) == (if g[cy]@[cx % (
                g[0]@.len() as int)] {
                    1int
                } else {
                    0int
                }) + slope_trees(g, cx + slope.x, cy + slope.y, slope.x as int, slope.y as int));
            }
            if self.is_tree_at(&current) {
                tree_count = tree_count + 1;
            }
            proof {
                assert(current.y * slope.x + slope.x <= g.len() * slope.x + slope.x) by (
                nonlinear_arith)
                    requires
                        current.y <= g.len(),
                        slope.x >= 0,
                ;
                assert((current.y + slope.y) * slope.x == current.y * slope.x + slope.y * slope.x)
                    by (nonlinear_arith);
                assert(slope.y * slope.x >= slope.x) by (nonlinear_arith)
                    requires
                        slope.y >= 1,
                        slope.x >= 0,
                ;
            }
            current = current.next_position(slope);
        }
        proof {
            assert(slope_trees(g, current.x as int, current.y as int, slope.x as int, slope.y as int)
                == 0);
        }
        tree_count
    }

    /// The product of the tree counts over several slopes.
    pub fn mult_trees_on_slopes(&self, slopes: &Vec<Position>) -> (r: usize)
        requires
            grid_ok(self.trees@),
            forall|k: int| 0 <= k < slopes@.len() ==> (#[trigger] slopes@[k]).y >= 1,
            forall|k: int|
                0 <= k < slopes@.len() ==> self.trees@.len() * (#[trigger] slopes@[k]).x
                    + slopes@[k].x <= usize::MAX,
            self.trees@.len() + usize::MAX >= usize::MAX,
            forall|k: int|
                0 <= k < slopes@.len() ==> self.trees@.len() + (#[trigger] slopes@[k]).y
                    <= usize::MAX,
            forall|k: int|
                0 <= k <= slopes@.len() ==> slopes_product(self.trees@, slopes@, k) <= usize::MAX,
        ensures
            r == slopes_product(self.trees@, slopes@, slopes@.len() as int),
    {
        let ghost g = self.trees@;
        let mut mult: usize = 1;
        let mut k: usize = 0;
        let n = slopes.len();
        while k < n
            invariant
                k <= n,
                n == slopes@.len(),
                g == self.trees@,
                grid_ok(g),
                forall|j: int| 0 <= j < slopes@.len() ==> (#[trigger] slopes@[j]).y >= 1,
                forall|j: int|
                    0 <= j < slopes@.len() ==> g.len() * (#[trigger] slopes@[j]).x + slopes@[j].x
                        <= usize::MAX,
                forall|j: int|
                    0 <= j < slopes@.len() ==> g.len() + (#[trigger] slopes@[j]).y <= usize::MAX,
                forall|j: int| 0 <= j <= slopes@.len() ==> slopes_product(g, slopes@, j)
                    <= usize::MAX,
                mult == slopes_product(g, slopes@, k as int),
            decreases n - k,
        {
            let trees = self.count_trees_on_slope(&slopes[k]);
            proof {
                lemma_slope_trees_bounds(g, 0, 0, slopes@[k as int].x as int, slopes@[
                    k as int].y as int);
                assert(slopes_product(g, slopes@, k as int + 1) == slopes_product(g, slopes@, k as int)
                    * slope_trees(g, 0, 0, slopes@[k as int].x as int, slopes@[k as int].y as int));
                assert(slopes_product(g, slopes@, k as int) >= 0) by {
                    lemma_slopes_product_nonneg(g, slopes@, k as int);
                }
            }
            mult = mult * trees;
            k = k + 1;
        }
        mult
    }
}

proof fn lemma_slopes_product_nonneg(g: Seq<Vec<bool>>, slopes: Seq<Position>, k: int)
    requires
        forall|j: int| 0 <= j < slopes.len() ==> (#[trigger] slopes[j]).y >= 1,
        k <= slopes.len(),
    ensures
        slopes_product(g, slopes, k) >= 0,
    decreases k,
{
    if k > 0 {
        lemma_slopes_product_nonneg(g, slopes, k - 1);
        lemma_slope_trees_bounds(g, 0, 0, slopes[k - 1].x as int, slopes[k - 1].y as int);
        assert(slopes_product(g, slopes, k - 1) * slope_trees(
            g,
            0,
            0,
            slopes[k - 1].x as int,
            slopes[k - 1].y as int,
        ) >= 0) by (nonlinear_arith)
            requires
                slopes_product(g, slopes, k - 1) >= 0,
                slope_trees(g, 0, 0, slopes[k - 1].x as int, slopes[k - 1].y as int) >= 0,
        ;
    }
}

} // verus!
