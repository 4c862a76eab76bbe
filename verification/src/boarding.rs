//! Binary-space-partition boarding passes: a pass like `FBFBBFFRLR` selects a
//! row by halving the range 0..=127 and a seat by halving 0..=7.

use vstd::prelude::*;

verus! {

/// A decoded boarding pass: a row (0..=127 for well-formed passes) and a
/// seat column (0..=7, 0 = leftmost).
pub struct Seat {
    pub row: usize,
    pub seat: usize,
}

/// Halve a closed range, keeping the lower half when `upper` is true
/// (the `F`/`L` letters) and the upper half otherwise.
pub open spec fn spec_update_range(range: (usize, usize), upper: bool) -> (usize, usize) {
    let half_size = ((range.1 - range.0 + 1) / 2) as usize;
    if upper {
        (range.0, (range.1 - half_size) as usize)
    } else {
        ((range.0 + half_size) as usize, range.1)
    }
}

pub fn update_range(range: (usize, usize), upper: bool) -> (r: (usize, usize))
    requires
        range.0 <= range.1,
        range.1 - range.0 < usize::MAX,
    ensures
        r == spec_update_range(range, upper),
        r.0 <= r.1,
{
    let half_size: usize = ((range.1 - range.0) + 1) / 2;
    if upper {
        (range.0, range.1 - half_size)
    } else {
        (range.0 + half_size, range.1)
    }
}

/// The pair of ranges after folding the first `n` letters of a pass over
/// `spec_update_range`, starting from rows 0..=127 and seats 0..=7.
pub open spec fn spec_ranges(s: Seq<char>, n: int) -> ((usize, usize), (usize, usize))
    decreases n,
{
    if n <= 0 {
        ((0usize, 127usize), (0usize, 7usize))
    } else {
        let prev = spec_ranges(s, n - 1);
        let c = s[n - 1];
        if c == 'F' || c == 'B' {
            (spec_update_range(prev.0, c == 'F'), prev.1)
        } else if c == 'R' || c == 'L' {
            (prev.0, spec_update_range(prev.1, c == 'L'))
        } else {
            prev
        }
    }
}

/// Both folded ranges always stay ordered.
proof fn lemma_ranges_ordered(s: Seq<char>, n: int)
    requires
        0 <= n,
    ensures
        spec_ranges(s, n).0.0 <= spec_ranges(s, n).0.1,
        spec_ranges(s, n).1.0 <= spec_ranges(s, n).1.1,
    decreases n,
{
    if n > 0 {
        lemma_ranges_ordered(s, n - 1);
    }
}

impl Seat {
    /// Decode a pass: the row is the lower bound of the folded row range,
    /// the seat the upper bound of the folded seat range.
    pub fn from_string(val: &str) -> (r: Seat)
        ensures
            r.row == spec_ranges(val@, val@.len() as int).0.0,
            r.seat == spec_ranges(val@, val@.len() as int).1.1,
            r.row <= 127 && r.seat <= 7,
    {
        let mut row_range: (usize, usize) = (0, 127);
        let mut seat_range: (usize, usize) = (0, 7);
        let n = val.unicode_len();
        let mut i: usize = 0;
        proof {
            lemma_ranges_ordered(val@, 0);
        }
        while i < n
            invariant
                i <= n,
                n == val@.len(),
                (row_range, seat_range) == spec_ranges(val@, i as int),
                row_range.0 <= row_range.1 <= 127,
                seat_range.0 <= seat_range.1 <= 7,
            decreases n - i,
        {
            let c = val.get_char(i);
            if c == 'F' || c == 'B' {
                row_range = update_range(row_range, c == 'F');
            } else if c == 'R' || c == 'L' {
                seat_range = update_range(seat_range, c == 'L');
            }
            i = i + 1;
        }
        Seat { row: row_range.0, seat: seat_range.1 }
    }

    /// A seat's id is `row * 8 + seat`.
    pub fn id(&self) -> (r: usize)
        requires
            self.row * 8 + self.seat <= usize::MAX,
        ensures
            r == self.row * 8 + self.seat,
    {
        self.row * 8 + self.seat
    }
}

} // verus!
