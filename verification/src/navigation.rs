//! Ferry navigation: a ship follows move and turn orders, directly or via
//! a waypoint it steers towards.

use vstd::prelude::*;

verus! {

/// A compass direction or a turn/forward order.
#[derive(Clone, Copy, PartialEq, Eq, Structural, Debug)]
pub enum Direction {
    N,
    S,
    E,
    W,
    L,
    R,
    F,
}

/// Where a compass direction stands in clockwise order N, E, S, W.
pub open spec fn dir_index(d: Direction) -> int {
    match d {
        Direction::N => 0,
        Direction::E => 1,
        Direction::S => 2,
        Direction::W => 3,
        _ => 0,
    }
}

pub open spec fn dir_of_index(i: int) -> Direction {
    if i == 0 {
        Direction::N
    } else if i == 1 {
        Direction::E
    } else if i == 2 {
        Direction::S
    } else {
        Direction::W
    }
}

pub open spec fn is_compass(d: Direction) -> bool {
    d is N || d is E || d is S || d is W
}

impl Direction {
    /// The order letter starting a line.
    pub fn from_line(line: &str) -> (r: Option<Direction>)
        ensures
            r == (if line@.len() == 0 {
                None::<Direction>
            } else {
                match line@[0] {
                    'N' => Some(Direction::N),
                    'S' => Some(Direction::S),
                    'E' => Some(Direction::E),
                    'W' => Some(Direction::W),
                    'L' => Some(Direction::L),
                    'R' => Some(Direction::R),
                    'F' => Some(Direction::F),
                    _ => None,
                }
            }),
    {
        if line.unicode_len() == 0 {
            return None;
        }
        match line.get_char(0) {
            'N' => Some(Direction::N),
            'S' => Some(Direction::S),
            'E' => Some(Direction::E),
            'W' => Some(Direction::W),
            'L' => Some(Direction::L),
            'R' => Some(Direction::R),
            'F' => Some(Direction::F),
            _ => None,
        }
    }

    /// Turn a compass heading by an order: left or right in quarter turns,
    /// anything else leaves the heading unchanged.
    pub fn apply(&self, action: &Action) -> (r: Direction)
        requires
            is_compass(*self),
            action.action is L || action.action is R ==> 0 <= action.value <= 360,
        ensures
            r == spec_turn(*self, action.action, action.value as int),
    {
        let other = action.action;
        match other {
            Direction::L => {
                let n = (action.value / 90) as usize;
                let idx = self.index();
                Direction::at_index((idx + 4 - n % 4) % 4)
            },
            Direction::R => {
                let n = (action.value / 90) as usize;
                let idx = self.index();
                Direction::at_index((idx + n) % 4)
            },
            _ => *self,
        }
    }

    fn index(&self) -> (r: usize)
        requires
            is_compass(*self),
        ensures
            r == dir_index(*self),
            r < 4,
    {
        match self {
            Direction::N => 0,
            Direction::E => 1,
            Direction::S => 2,
            Direction::W => 3,
            _ => 0,
        }
    }

    fn at_index(i: usize) -> (r: Direction)
        requires
            i < 4,
        ensures
            r == dir_of_index(i as int),
    {
        if i == 0 {
            Direction::N
        } else if i == 1 {
            Direction::E
        } else if i == 2 {
            Direction::S
        } else {
            Direction::W
        }
    }
}

/// The heading after turning `value` degrees left or right from `d`.
pub open spec fn spec_turn(d: Direction, order: Direction, value: int) -> Direction {
    match order {
        Direction::L => dir_of_index((dir_index(d) + 4 - (value / 90) % 4) % 4),
        Direction::R => dir_of_index((dir_index(d) + value / 90) % 4),
        _ => d,
    }
}

/// One order: what to do and by how much.
#[derive(Clone, Copy, PartialEq, Eq, Structural, Debug)]
pub struct Action {
    pub action: Direction,
    pub value: i32,
}

impl Action {
    /// Parse a line such as `F10`: an order letter and a number.
    pub fn from_string(line: &str) -> (r: Option<Action>)
        ensures
            match r {
                Some(a) => line@.len() >= 2 && Some(a.action) == (match line@[0] {
                    'N' => Some(Direction::N),
                    'S' => Some(Direction::S),
                    'E' => Some(Direction::E),
                    'W' => Some(Direction::W),
                    'L' => Some(Direction::L),
                    'R' => Some(Direction::R),
                    'F' => Some(Direction::F),
                    _ => None,
                }) && crate::text::all_digits(line@.subrange(1, line@.len() as int)) && a.value
                    == crate::text::digits_value(line@.subrange(1, line@.len() as int)),
                None => true,
            },
            r is None <==> (line@.len() < 2 || (match line@[0] {
                'N' | 'S' | 'E' | 'W' | 'L' | 'R' | 'F' => false,
                _ => true,
            }) || !crate::text::all_digits(line@.subrange(1, line@.len() as int))
                || crate::text::digits_value(line@.subrange(1, line@.len() as int)) > i32::MAX),
    {
        let n = line.unicode_len();
        if n < 2 {
            return None;
        }
        let act = match Direction::from_line(line) {
            Some(d) => d,
            None => {
                return None;
            },
        };
        let v: Option<usize> = parse_tail(line, 1);
        match v {
            Some(value) => {
                if value <= 0x7fff_ffff {
                    Some(Action { action: act, value: value as i32 })
                } else {
                    None
                }
            },
            None => None,
        }
    }
}

/// Parse the characters of `s` from position `from` on as a number.
fn parse_tail(s: &str, from: usize) -> (r: Option<usize>)
    requires
        from <= s@.len(),
    ensures
        match r {
            Some(v) => crate::text::all_digits(s@.subrange(from as int, s@.len() as int)) && v
                == crate::text::digits_value(s@.subrange(from as int, s@.len() as int)),
            None => !crate::text::all_digits(s@.subrange(from as int, s@.len() as int))
                || crate::text::digits_value(s@.subrange(from as int, s@.len() as int))
                > usize::MAX,
        },
{
    let ghost d = s@.subrange(from as int, s@.len() as int);
    let n = s.unicode_len();
    if from == n {
        return None;
    }
    let mut acc: usize = 0;
    let mut i: usize = from;
    while i < n
        invariant
            from <= i <= n,
            n == s@.len(),
            d == s@.subrange(from as int, n as int),
            forall|k: int| 0 <= k < i - from ==> crate::text::is_digit_char(#[trigger] d[k]),
            acc == crate::text::digits_value(d.subrange(0, i - from)),
        decreases n - i,
    {
        let c = s.get_char(i);
        proof {
            assert(d[i - from] == s@[i as int]);
        }
        if c < '0' || c > '9' {
            return None;
        }
        let digit = (c as u32 - 48) as usize;
        let next = match acc.checked_mul(10) {
            Some(m) => m.checked_add(digit),
            None => None,
        };
        match next {
            Some(v) => {
                acc = v;
                proof {
                    assert(d.subrange(0, i - from + 1).drop_last() =~= d.subrange(0, i - from));
                    assert(d.subrange(0, i - from + 1).last() == d[i - from]);
                }
            },
            None => {
                proof {
                    assert(d.subrange(0, i - from + 1).drop_last() =~= d.subrange(0, i - from));
                    assert(d.subrange(0, i - from + 1).last() == d[i - from]);
                    if crate::text::all_digits(d) {
                        crate::text::lemma_digits_value_prefix(d, i - from + 1);
                    }
                }
                return None;
            },
        }
        i = i + 1;
    }
    proof {
        assert(d.subrange(0, n - from) =~= d);
    }
    Some(acc)
}

/// The ship: a heading and a position in north/east coordinates.
pub struct Ship {
    pub facing: Direction,
    pub north: i32,
    pub east: i32,
}

impl Ship {
    /// A fresh ship at the origin, facing east.
    pub fn new() -> (r: Ship)
        ensures
            r.facing == Direction::E && r.north == 0 && r.east == 0,
    {
        Ship { facing: Direction::E, north: 0, east: 0 }
    }

    /// Follow one order: move along a compass direction, forward along the
    /// heading, or turn in place.
    pub fn apply(&mut self, action: &Action)
        requires
            is_compass(old(self).facing),
            i32::MIN <= old(self).north - action.value <= i32::MAX,
            i32::MIN <= old(self).north + action.value <= i32::MAX,
            i32::MIN <= old(self).east - action.value <= i32::MAX,
            i32::MIN <= old(self).east + action.value <= i32::MAX,
            action.action is L || action.action is R ==> 0 <= action.value <= 360,
        ensures
            final(self).facing == spec_turn(old(self).facing, action.action, action.value as int),
            final(self).north == old(self).north + (match (if action.action is F {
                old(self).facing
            } else {
                action.action
            }) {
                Direction::N => action.value as int,
                Direction::S => -(action.value as int),
                _ => 0,
            }),
            final(self).east == old(self).east + (match (if action.action is F {
                old(self).facing
            } else {
                action.action
            }) {
                Direction::E => action.value as int,
                Direction::W => -(action.value as int),
                _ => 0,
            }),
            is_compass(final(self).facing),
    {
        let dir = if let Direction::F = action.action {
            self.facing
        } else {
            action.action
        };
        match dir {
            Direction::N => {
                self.north = self.north + action.value;
            },
            Direction::S => {
                self.north = self.north - action.value;
            },
            Direction::E => {
                self.east = self.east + action.value;
            },
            Direction::W => {
                self.east = self.east - action.value;
            },
            _ => {
                let f = self.facing;
                self.facing = f.apply(action);
            },
        }
    }

    /// Taxicab distance from the start.
    pub fn travelled(&self) -> (r: i32)
        requires
            self.north > i32::MIN,
            self.east > i32::MIN,
            vstd::math::abs(self.north as int) + vstd::math::abs(self.east as int) <= i32::MAX,
        ensures
            r == vstd::math::abs(self.north as int) + vstd::math::abs(self.east as int),
    {
        let n = if self.north < 0 {
            -self.north
        } else {
            self.north
        };
        let e = if self.east < 0 {
            -self.east
        } else {
            self.east
        };
        n + e
    }
}

/// The waypoint the ship steers towards, relative to the ship.
pub struct Waypoint {
    pub north: i32,
    pub east: i32,
}

/// A quarter turn of the waypoint around the ship.
pub open spec fn spec_wp_quarter(north: int, east: int, dir: Direction) -> (int, int) {
    match dir {
        Direction::L => (east, -north),
        Direction::R => (-east, north),
        _ => (north, east),
    }
}

/// `n` quarter turns.
pub open spec fn spec_wp_rot(north: int, east: int, dir: Direction, n: nat) -> (int, int)
    decreases n,
{
    if n == 0 {
        (north, east)
    } else {
        let prev = spec_wp_rot(north, east, dir, (n - 1) as nat);
        spec_wp_quarter(prev.0, prev.1, dir)
    }
}

impl Waypoint {
    /// The starting waypoint: one north, ten east.
    pub fn new() -> (r: Waypoint)
        ensures
            r.north == 1 && r.east == 10,
    {
        Waypoint { north: 1, east: 10 }
    }

    /// One quarter turn around the ship.
    pub fn rotate(&mut self, direction: Direction)
        requires
            old(self).north > i32::MIN,
            old(self).east > i32::MIN,
        ensures
            (final(self).north as int, final(self).east as int) == spec_wp_quarter(
                old(self).north as int,
                old(self).east as int,
                direction,
            ),
    {
        let east = self.east;
        let north = self.north;
        if let Direction::L = direction {
            self.east = -north;
            self.north = east;
        } else if let Direction::R = direction {
            self.east = north;
            self.north = -east;
        }
    }

    /// Follow one order: move the waypoint, or rotate it around the ship
    /// in quarter turns; forward orders do not move the waypoint.
    pub fn apply(&mut self, action: &Action)
        requires
            old(self).north > i32::MIN,
            old(self).east > i32::MIN,
            i32::MIN < old(self).north - action.value <= i32::MAX,
            i32::MIN < old(self).north + action.value <= i32::MAX,
            i32::MIN < old(self).east - action.value <= i32::MAX,
            i32::MIN < old(self).east + action.value <= i32::MAX,
            action.action is L || action.action is R ==> 0 <= action.value <= 360,
        ensures
            (final(self).north as int, final(self).east as int) == (match action.action {
                Direction::N => (old(self).north + action.value, old(self).east as int),
                Direction::S => (old(self).north - action.value, old(self).east as int),
                Direction::E => (old(self).north as int, old(self).east + action.value),
                Direction::W => (old(self).north as int, old(self).east - action.value),
                Direction::F => (old(self).north as int, old(self).east as int),
                _ => spec_wp_rot(
                    old(self).north as int,
                    old(self).east as int,
                    action.action,
                    (action.value as int / 90) as nat,
                ),
            }),
    {
        match action.action {
            Direction::N => {
                self.north = self.north + action.value;
            },
            Direction::S => {
                self.north = self.north - action.value;
            },
            Direction::E => {
                self.east = self.east + action.value;
            },
            Direction::W => {
                self.east = self.east - action.value;
            },
            Direction::F => {},
            _ => {
                let total = (action.value / 90) as usize;
                let mut n: usize = 0;
                while n < total
                    invariant
                        n <= total,
                        total <= 4,
                        self.north > i32::MIN,
                        self.east > i32::MIN,
                        (self.north as int, self.east as int) == spec_wp_rot(
                            old(self).north as int,
                            old(self).east as int,
                            action.action,
                            n as nat,
                        ),
                        action.action is L || action.action is R,
                    decreases total - n,
                {
                    let ghost before = (self.north as int, self.east as int);
                    self.rotate(action.action);
                    proof {
                        assert((self.north as int, self.east as int) == spec_wp_quarter(
                            before.0,
                            before.1,
                            action.action,
                        ));
                    }
                    n = n + 1;
                }
            },
        }
    }
}

} // verus!
