use std::ops::Range;
use vstd::prelude::*;
use super::{fits_int, Int, Pos};

verus! {

pub type IntRange = Range<Int>;

/// Half of `n`, rounded toward zero as integer division does.
pub open spec fn half(n: int) -> int {
    if n >= 0 {
        n / 2
    } else {
        -((-n) / 2)
    }
}

/// Widens `range` just enough to hold `i`.
pub fn grow_range_to(range: &mut IntRange, i: Int)
    requires
        i < Int::MAX,
    ensures
        i < old(range).start ==> *final(range) == (Range { start: i, end: old(range).end }),
        old(range).start <= i && i >= old(range).end ==> *final(range) == (Range {
            start: old(range).start,
            end: (i + 1) as Int,
        }),
        old(range).start <= i < old(range).end ==> *final(range) == *old(range),
{
    if i < range.start {
        range.start = i;
    } else if i >= range.end {
        range.end = i + 1;
    }
}

/// A rectangle in the world: the positions whose `x` lies in the `x` range
/// and whose `y` lies in the `y` range.
#[derive(Debug, PartialEq, Eq)]
pub struct PosArea {
    pub x: Range<Int>,
    pub y: Range<Int>,
}

impl Clone for PosArea {
    fn clone(&self) -> (r: Self)
        ensures
            r == *self,
    {
        Self {
            x: Range { start: self.x.start, end: self.x.end },
            y: Range { start: self.y.start, end: self.y.end },
        }
    }
}

impl PosArea {
    pub open spec fn spec_contains(&self, p: Pos) -> bool {
        self.x.start <= p.x < self.x.end && self.y.start <= p.y < self.y.end
    }

    pub open spec fn spec_is_empty(&self) -> bool {
        self.x.start >= self.x.end || self.y.start >= self.y.end
    }

    pub open spec fn spec_width(&self) -> int {
        self.x.end - self.x.start
    }

    pub open spec fn spec_height(&self) -> int {
        self.y.end - self.y.start
    }

    /// Number of positions in a well-formed area.
    pub open spec fn size(&self) -> int {
        self.spec_width() * self.spec_height()
    }

    /// The ranges are ordered, their lengths fit in an `Int`, and every
    /// position inside has all its neighbours representable.
    pub open spec fn wf(&self) -> bool {
        &&& Int::MIN < self.x.start <= self.x.end
        &&& Int::MIN < self.y.start <= self.y.end
        &&& fits_int(self.spec_width())
        &&& fits_int(self.spec_height())
    }

    pub open spec fn clamp(i: int, r: Range<Int>) -> int {
        if i < r.start {
            r.start as int
        } else if i >= r.end {
            r.end - 1
        } else {
            i
        }
    }

    pub fn new(x: Range<Int>, y: Range<Int>) -> (r: Self)
        ensures
            r.x == x,
            r.y == y,
    {
        Self { x, y }
    }

    pub fn empty() -> (r: Self)
        ensures
            r.x == (Range { start: 0 as Int, end: 0 as Int }),
            r.y == (Range { start: 0 as Int, end: 0 as Int }),
            r.spec_is_empty(),
    {
        Self { x: Range { start: 0, end: 0 }, y: Range { start: 0, end: 0 } }
    }

    pub fn is_empty(&self) -> (r: bool)
        ensures
            r == self.spec_is_empty(),
    {
        self.x.start >= self.x.end || self.y.start >= self.y.end
    }

    /// The area holding `pos` alone.
    pub fn from_pos(pos: Pos) -> (r: Self)
        requires
            pos.x < Int::MAX,
            pos.y < Int::MAX,
        ensures
            r.x == (Range { start: pos.x, end: (pos.x + 1) as Int }),
            r.y == (Range { start: pos.y, end: (pos.y + 1) as Int }),
            forall|p: Pos| r.spec_contains(p) <==> p == pos,
    {
        Self {
            x: Range { start: pos.x, end: pos.x + 1 },
            y: Range { start: pos.y, end: pos.y + 1 },
        }
    }

    pub fn contains(&self, pos: Pos) -> (r: bool)
        ensures
            r == self.spec_contains(pos),
    {
        self.x.start <= pos.x && pos.x < self.x.end && self.y.start <= pos.y && pos.y < self.y.end
    }

    pub fn width(&self) -> (r: Int)
        requires
            fits_int(self.spec_width()),
        ensures
            r == self.spec_width(),
    {
        self.x.end - self.x.start
    }

    pub fn height(&self) -> (r: Int)
        requires
            fits_int(self.spec_height()),
        ensures
            r == self.spec_height(),
    {
        self.y.end - self.y.start
    }

    /// The middle of the area, each coordinate rounded toward zero.
    pub fn center(&self) -> (r: Pos)
        ensures
            r.x == half(self.x.start + self.x.end),
            r.y == half(self.y.start + self.y.end),
    {
        let sx: i64 = self.x.start as i64 + self.x.end as i64;
        let sy: i64 = self.y.start as i64 + self.y.end as i64;
        Pos::new((sx / 2) as Int, (sy / 2) as Int)
    }

    /// The position of the area nearest to `pos`, each coordinate clamped
    /// to its range on its own.
    pub fn nearest(&self, pos: Pos) -> (r: Pos)
        requires
            self.x.end > Int::MIN,
            self.y.end > Int::MIN,
        ensures
            r.x == PosArea::clamp(pos.x as int, self.x),
            r.y == PosArea::clamp(pos.y as int, self.y),
            !self.spec_is_empty() ==> self.spec_contains(r),
            self.spec_contains(pos) ==> r == pos,
    {
        let mut pos = pos;
        if pos.x < self.x.start {
            pos.x = self.x.start;
        } else if pos.x >= self.x.end {
            pos.x = self.x.end - 1;
        }
        if pos.y < self.y.start {
            pos.y = self.y.start;
        } else if pos.y >= self.y.end {
            pos.y = self.y.end - 1;
        }
        pos
    }

    /// Grows the area so that it holds `pos`.
    pub fn grow_to(&mut self, pos: Pos)
        requires
            pos.x < Int::MAX,
            pos.y < Int::MAX,
        ensures
            final(self).x.start == if pos.x < old(self).x.start {
                pos.x
            } else {
                old(self).x.start
            },
            final(self).x.end == if old(self).x.start <= pos.x && pos.x >= old(self).x.end {
                (pos.x + 1) as Int
            } else {
                old(self).x.end
            },
            final(self).y.start == if pos.y < old(self).y.start {
                pos.y
            } else {
                old(self).y.start
            },
            final(self).y.end == if old(self).y.start <= pos.y && pos.y >= old(self).y.end {
                (pos.y + 1) as Int
            } else {
                old(self).y.end
            },
            !old(self).spec_is_empty() ==> final(self).spec_contains(pos),
            forall|p: Pos| old(self).spec_contains(p) ==> final(self).spec_contains(p),
    {
        grow_range_to(&mut self.x, pos.x);
        grow_range_to(&mut self.y, pos.y);
    }
}

} // verus!
