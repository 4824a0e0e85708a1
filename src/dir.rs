use vstd::prelude::*;

verus! {

/// An integer grid coordinate.
#[derive(Clone, Copy, Debug, Default, PartialEq, Eq, Hash, Structural)]
pub struct IVec2 {
    pub x: i32,
    pub y: i32,
}

impl IVec2 {
    pub fn new(x: i32, y: i32) -> (r: IVec2)
        ensures
            r.x == x,
            r.y == y,
    {
        IVec2 { x, y }
    }
}

/// One of the four grid directions, or no direction at all.
#[derive(Clone, Copy, Debug, Default, PartialEq, Eq, Hash, Structural)]
pub enum Dir {
    #[default]
    North,
    East,
    South,
    West,
    Stay,
}

/// The unit offset of a direction along x.
pub open spec fn dir_dx(d: Dir) -> int {
    match d {
        Dir::East => 1,
        Dir::West => -1,
        _ => 0,
    }
}

/// The unit offset of a direction along y.
pub open spec fn dir_dy(d: Dir) -> int {
    match d {
        Dir::North => 1,
        Dir::South => -1,
        _ => 0,
    }
}

/// Whether a coordinate pair fits in an `IVec2`.
pub open spec fn fits_i32(x: int, y: int) -> bool {
    i32::MIN <= x <= i32::MAX && i32::MIN <= y <= i32::MAX
}

/// The cell one step from `p` in direction `d`, where it can be represented.
pub open spec fn spec_step(p: IVec2, d: Dir) -> Option<IVec2> {
    let x = p.x + dir_dx(d);
    let y = p.y + dir_dy(d);
    if fits_i32(x, y) {
        Some(IVec2 { x: x as i32, y: y as i32 })
    } else {
        None
    }
}

/// The direction a one-letter name selects: `n`, `e`, `s` or `w`;
/// anything else is no direction.
pub open spec fn dir_named(c: Seq<char>) -> Dir {
    if c == seq!['n'] {
        Dir::North
    } else if c == seq!['e'] {
        Dir::East
    } else if c == seq!['s'] {
        Dir::South
    } else if c == seq!['w'] {
        Dir::West
    } else {
        Dir::Stay
    }
}

/// The direction opposite to `d`.
pub open spec fn spec_invert(d: Dir) -> Dir {
    match d {
        Dir::North => Dir::South,
        Dir::East => Dir::West,
        Dir::South => Dir::North,
        Dir::West => Dir::East,
        Dir::Stay => Dir::Stay,
    }
}

impl Dir {
    /// The offset of this direction as a vector.
    pub fn to_ivec2(self) -> (r: IVec2)
        ensures
            r.x == dir_dx(self),
            r.y == dir_dy(self),
    {
        match self {
            Dir::North => IVec2::new(0, 1),
            Dir::East => IVec2::new(1, 0),
            Dir::South => IVec2::new(0, -1),
            Dir::West => IVec2::new(-1, 0),
            Dir::Stay => IVec2::new(0, 0),
        }
    }

    /// The cell one step from `p` in this direction; `None` where that cell
    /// lies beyond the range of the coordinate type.
    pub fn step_from(self, p: IVec2) -> (r: Option<IVec2>)
        ensures
            r == spec_step(p, self),
    {
        let dx = self.to_ivec2();
        let x = p.x as i64 + dx.x as i64;
        let y = p.y as i64 + dx.y as i64;
        if x < i32::MIN as i64 || x > i32::MAX as i64 || y < i32::MIN as i64 || y > i32::MAX as i64 {
            None
        } else {
            Some(IVec2::new(x as i32, y as i32))
        }
    }

    /// Reads a direction from its one-letter name; anything else is no direction.
    pub fn from_str(c: &str) -> (r: Dir)
        ensures
            r == dir_named(c@),
    {
        if c.unicode_len() != 1 {
            return Dir::Stay;
        }
        let ch = c.get_char(0);
        proof {
            if c@.len() == 1 {
                assert(c@ =~= seq![ch]);
            }
        }
        if ch == 'n' {
            Dir::North
        } else if ch == 'e' {
            Dir::East
        } else if ch == 's' {
            Dir::South
        } else if ch == 'w' {
            Dir::West
        } else {
            Dir::Stay
        }
    }

    /// The four real directions, in the order north, east, south, west.
    pub fn all() -> (r: Vec<Dir>)
        ensures
            r@ == seq![Dir::North, Dir::East, Dir::South, Dir::West],
    {
        vec![Dir::North, Dir::East, Dir::South, Dir::West]
    }

    /// The opposite direction.
    pub fn invert(&self) -> (r: Dir)
        ensures
            r == spec_invert(*self),
            dir_dx(r) == -dir_dx(*self),
            dir_dy(r) == -dir_dy(*self),
    {
        match self {
            Dir::North => Dir::South,
            Dir::East => Dir::West,
            Dir::South => Dir::North,
            Dir::West => Dir::East,
            Dir::Stay => Dir::Stay,
        }
    }
}

} // verus!
