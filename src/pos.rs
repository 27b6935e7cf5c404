pub mod pos_area;

use vstd::prelude::*;

verus! {

pub type Int = i32;

/// A position in the world grid.
#[derive(Debug, Clone, Copy, PartialEq, Eq, Hash, Structural)]
pub struct Pos {
    pub x: Int,
    pub y: Int,
}

/// One of the four cardinal or four diagonal compass directions.
#[derive(Debug, Clone, Copy, PartialEq, Eq, Structural)]
pub enum Dir {
    Up,
    Right,
    Down,
    Left,
    UpRight,
    RightDown,
    DownLeft,
    LeftUp,
}

/// A position on the terminal screen.
#[derive(Debug, Clone, Copy)]
pub struct ScreenPos {
    pub x: u16,
    pub y: u16,
}

/// A rectangle of the terminal screen.
#[derive(Debug, Clone, Copy)]
pub struct ScreenArea {
    pub left: u16,
    pub top: u16,
    pub width: u16,
    pub height: u16,
}

pub open spec fn abs(i: int) -> int {
    if i < 0 { -i } else { i }
}

pub open spec fn max(a: int, b: int) -> int {
    if a < b { b } else { a }
}

pub open spec fn fits_int(i: int) -> bool {
    Int::MIN <= i <= Int::MAX
}

impl Dir {
    /// Horizontal offset of one step in this direction.
    pub open spec fn dx(self) -> int {
        match self {
            Dir::Right | Dir::UpRight | Dir::RightDown => 1,
            Dir::Left | Dir::DownLeft | Dir::LeftUp => -1,
            _ => 0,
        }
    }

    /// Vertical offset of one step in this direction (y grows downwards).
    pub open spec fn dy(self) -> int {
        match self {
            Dir::Up | Dir::UpRight | Dir::LeftUp => -1,
            Dir::Down | Dir::RightDown | Dir::DownLeft => 1,
            _ => 0,
        }
    }

    pub open spec fn is_cardinal(self) -> bool {
        match self {
            Dir::Up | Dir::Right | Dir::Down | Dir::Left => true,
            _ => false,
        }
    }
}

impl Pos {
    /// The direction whose offset is `(dx, dy)`, if any.
    pub open spec fn dir_of_offset(dx: int, dy: int) -> Option<Dir> {
        if dx == 0 && dy == -1 {
            Some(Dir::Up)
        } else if dx == 1 && dy == 0 {
            Some(Dir::Right)
        } else if dx == 0 && dy == 1 {
            Some(Dir::Down)
        } else if dx == -1 && dy == 0 {
            Some(Dir::Left)
        } else if dx == 1 && dy == -1 {
            Some(Dir::UpRight)
        } else if dx == 1 && dy == 1 {
            Some(Dir::RightDown)
        } else if dx == -1 && dy == 1 {
            Some(Dir::DownLeft)
        } else if dx == -1 && dy == -1 {
            Some(Dir::LeftUp)
        } else {
            None
        }
    }

    pub open spec fn spec_dir_to(self, dst: Pos) -> Option<Dir> {
        Pos::dir_of_offset(dst.x - self.x, dst.y - self.y)
    }

    /// `dst` is one cardinal step away from `self`.
    #[verifier::opaque]
    pub open spec fn is_cardinal_step(self, dst: Pos) -> bool {
        match self.spec_dir_to(dst) {
            Some(d) => d.is_cardinal(),
            None => false,
        }
    }

    /// A step in direction `d` stays within the integer range.
    pub open spec fn can_step(self, d: Dir) -> bool {
        fits_int(self.x + d.dx()) && fits_int(self.y + d.dy())
    }

    pub open spec fn spec_in_dir(self, d: Dir) -> Pos {
        Pos { x: (self.x + d.dx()) as Int, y: (self.y + d.dy()) as Int }
    }

    pub open spec fn spec_mh_distance(a: Pos, b: Pos) -> int {
        max(abs(a.x - b.x), abs(a.y - b.y))
    }

    pub open spec fn spec_manhattan_distance(a: Pos, b: Pos) -> int {
        abs(a.x - b.x) + abs(a.y - b.y)
    }

    pub open spec fn spec_sq_euclidian_distance(a: Pos, b: Pos) -> int {
        (a.x - b.x) * (a.x - b.x) + (a.y - b.y) * (a.y - b.y)
    }

    pub fn new(x: Int, y: Int) -> (r: Self)
        ensures
            r.x == x,
            r.y == y,
    {
        Self { x, y }
    }

    /// The position at the middle of a screen area.
    pub fn center_of(area: &ScreenArea) -> (r: Self)
        ensures
            r.x == area.left + area.width / 2,
            r.y == area.top + area.height / 2,
    {
        Self {
            x: (area.left as Int + (area.width / 2) as Int),
            y: (area.top as Int + (area.height / 2) as Int),
        }
    }

    pub fn in_grid(self, width: Int, height: Int) -> (r: bool)
        ensures
            r == (self.x >= 0 && self.y >= 0 && self.x < width && self.y < height),
    {
        self.x >= 0 && self.y >= 0 && self.x < width && self.y < height
    }

    /// The larger of the two coordinate distances.
    pub fn mh_distance(a: Pos, b: Pos) -> (r: Int)
        requires
            Pos::spec_mh_distance(a, b) <= Int::MAX,
        ensures
            r == Pos::spec_mh_distance(a, b),
    {
        let dx = abs_diff(a.x, b.x);
        let dy = abs_diff(a.y, b.y);
        if dx < dy {
            dy
        } else {
            dx
        }
    }

    /// The sum of the two coordinate distances.
    pub fn manhattan_distance(a: Pos, b: Pos) -> (r: Int)
        requires
            Pos::spec_manhattan_distance(a, b) <= Int::MAX,
        ensures
            r == Pos::spec_manhattan_distance(a, b),
    {
        abs_diff(a.x, b.x) + abs_diff(a.y, b.y)
    }

    /// The squared euclidian distance.
    pub fn sq_euclidian_distance(a: Pos, b: Pos) -> (r: Int)
        requires
            Pos::spec_sq_euclidian_distance(a, b) <= Int::MAX,
        ensures
            r == Pos::spec_sq_euclidian_distance(a, b),
            r >= 0,
    {
        let ghost gx: int = a.x - b.x;
        let ghost gy: int = a.y - b.y;
        assert(gx * gx >= 0 && gy * gy >= 0) by (nonlinear_arith);
        assert(-46341 < gx < 46341) by (nonlinear_arith)
            requires
                gx * gx <= Int::MAX,
        ;
        assert(-46341 < gy < 46341) by (nonlinear_arith)
            requires
                gy * gy <= Int::MAX,
        ;
        let dx = a.x - b.x;
        let dy = a.y - b.y;
        dx * dx + dy * dy
    }

    /// The first direction to follow on a path, or none if the path is
    /// empty or doesn't start next to this position.
    pub fn first_dir(&self, path: &Vec<Pos>) -> (r: Option<Dir>)
        ensures
            r == (if path@.len() == 0 {
                None
            } else {
                self.spec_dir_to(path@[0])
            }),
    {
        if path.len() == 0 {
            None
        } else {
            self.dir_to(path[0])
        }
    }

    /// The direction leading directly to `dst`, or none if `dst` isn't a
    /// direct neighbour (diagonals included).
    pub fn dir_to(&self, dst: Pos) -> (r: Option<Dir>)
        ensures
            r == self.spec_dir_to(dst),
    {
        let dx: i64 = dst.x as i64 - self.x as i64;
        let dy: i64 = dst.y as i64 - self.y as i64;
        if dx == 0 && dy == -1 {
            Some(Dir::Up)
        } else if dx == 1 && dy == 0 {
            Some(Dir::Right)
        } else if dx == 0 && dy == 1 {
            Some(Dir::Down)
        } else if dx == -1 && dy == 0 {
            Some(Dir::Left)
        } else if dx == 1 && dy == -1 {
            Some(Dir::UpRight)
        } else if dx == 1 && dy == 1 {
            Some(Dir::RightDown)
        } else if dx == -1 && dy == 1 {
            Some(Dir::DownLeft)
        } else if dx == -1 && dy == -1 {
            Some(Dir::LeftUp)
        } else {
            None
        }
    }

    pub fn in_dir(&self, dir: Dir) -> (r: Self)
        requires
            self.can_step(dir),
        ensures
            r == self.spec_in_dir(dir),
            r.x == self.x + dir.dx(),
            r.y == self.y + dir.dy(),
    {
        match dir {
            Dir::Up => Pos { x: self.x, y: self.y - 1 },
            Dir::Right => Pos { x: self.x + 1, y: self.y },
            Dir::Down => Pos { x: self.x, y: self.y + 1 },
            Dir::Left => Pos { x: self.x - 1, y: self.y },
            Dir::UpRight => Pos { x: self.x + 1, y: self.y - 1 },
            Dir::RightDown => Pos { x: self.x + 1, y: self.y + 1 },
            Dir::DownLeft => Pos { x: self.x - 1, y: self.y + 1 },
            Dir::LeftUp => Pos { x: self.x - 1, y: self.y - 1 },
        }
    }
}

/// `|a - b|`, when it fits.
fn abs_diff(a: Int, b: Int) -> (r: Int)
    requires
        abs(a - b) <= Int::MAX,
    ensures
        r == abs(a - b),
{
    if a < b {
        b - a
    } else {
        a - b
    }
}

/// Stepping in a direction and asking for the direction back gives the
/// same direction: `dir_to` inverts `in_dir`.
pub proof fn lemma_dir_to_in_dir(p: Pos, d: Dir)
    requires
        p.can_step(d),
    ensures
        p.spec_dir_to(p.spec_in_dir(d)) == Some(d),
        d.is_cardinal() ==> p.is_cardinal_step(p.spec_in_dir(d)),
{
    reveal(Pos::is_cardinal_step);
}

/// A cardinal step is a step in a cardinal direction.
pub proof fn lemma_cardinal_step_dir(a: Pos, b: Pos) -> (d: Dir)
    requires
        a.is_cardinal_step(b),
    ensures
        d.is_cardinal(),
        a.can_step(d),
        b == a.spec_in_dir(d),
{
    reveal(Pos::is_cardinal_step);
    a.spec_dir_to(b).unwrap()
}

impl ScreenPos {
    pub fn new(x: u16, y: u16) -> (r: Self)
        ensures
            r.x == x,
            r.y == y,
    {
        Self { x, y }
    }
}

/// Something with a position in the world.
pub trait Mobile {
    spec fn spec_pos(&self) -> Pos;

    fn get_pos(&self) -> (r: Pos)
        ensures
            r == self.spec_pos(),
    ;

    /// Moves to `pos` and returns the position left.
    fn set_pos(&mut self, pos: Pos) -> (r: Pos)
        ensures
            r == old(self).spec_pos(),
            final(self).spec_pos() == pos,
    ;
}

} // verus!
