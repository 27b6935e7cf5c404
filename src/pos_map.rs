use vstd::prelude::*;
use crate::pos::pos_area::PosArea;
use crate::pos::{Int, Pos};

verus! {

/// A value for every position of an area, stored densely row by row.
pub struct PosMap<T> {
    area: PosArea,
    cells: Vec<T>,
}

/// Where a position of `area` stands in a row-by-row layout.
pub open spec fn cell_index(area: PosArea, p: Pos) -> int {
    (p.y - area.y.start) * area.spec_width() + (p.x - area.x.start)
}

/// Positions of an area get distinct indexes, all below the area's size.
pub proof fn lemma_cell_index(area: PosArea, p: Pos, q: Pos)
    requires
        area.wf(),
        area.spec_contains(p),
        area.spec_contains(q),
    ensures
        0 <= cell_index(area, p) < area.size(),
        cell_index(area, p) == cell_index(area, q) ==> p == q,
{
    let w = area.spec_width();
    let h = area.spec_height();
    let (py, px) = ((p.y - area.y.start) as int, (p.x - area.x.start) as int);
    let (qy, qx) = ((q.y - area.y.start) as int, (q.x - area.x.start) as int);
    assert(0 <= py * w + px < area.size()) by (nonlinear_arith)
        requires
            0 <= py < h,
            0 <= px < w,
            w == area.spec_width(),
            h == area.spec_height(),
            area.size() == w * h,
    ;
    assert(py * w + px == qy * w + qx ==> py == qy && px == qx) by (nonlinear_arith)
        requires
            0 <= py,
            0 <= qy,
            0 <= px < w,
            0 <= qx < w,
    ;
}

impl<T: Copy> PosMap<T> {
    pub closed spec fn spec_area(&self) -> PosArea {
        self.area
    }

    /// The stored values, row by row.
    pub closed spec fn cells(&self) -> Seq<T> {
        self.cells@
    }

    pub open spec fn wf(&self) -> bool {
        &&& self.spec_area().wf()
        &&& self.cells().len() == self.spec_area().size()
        &&& self.spec_area().size() <= usize::MAX
    }

    /// The value at `p`, a position of the area.
    pub open spec fn spec_get(&self, p: Pos) -> T {
        self.cells()[cell_index(self.spec_area(), p)]
    }

    /// A map over `area` holding `default` everywhere.
    pub fn new(area: &PosArea, default: T) -> (r: Self)
        requires
            area.wf(),
            area.size() <= usize::MAX,
        ensures
            r.wf(),
            r.spec_area() == *area,
            r.cells() == Seq::new(area.size() as nat, |i: int| default),
            forall|p: Pos| area.spec_contains(p) ==> #[trigger] r.spec_get(p) == default,
    {
        assert(area.size() >= 0) by (nonlinear_arith)
            requires
                area.spec_width() >= 0,
                area.spec_height() >= 0,
        ;
        let n = (area.x.end - area.x.start) as usize * (area.y.end - area.y.start) as usize;
        let mut cells: Vec<T> = Vec::new();
        let mut i: usize = 0;
        while i < n
            invariant
                i <= n,
                n == area.size(),
                cells@ == Seq::new(i as nat, |j: int| default),
            decreases n - i,
        {
            cells.push(default);
            i = i + 1;
            assert(cells@ =~= Seq::new(i as nat, |j: int| default));
        }
        let area = PosArea {
            x: std::ops::Range { start: area.x.start, end: area.x.end },
            y: std::ops::Range { start: area.y.start, end: area.y.end },
        };
        let r = PosMap { area, cells };
        assert forall|p: Pos| r.area.spec_contains(p) implies #[trigger] r.spec_get(p) == default by {
            lemma_cell_index(r.area, p, p);
        }
        r
    }

    pub fn area(&self) -> (r: &PosArea)
        ensures
            *r == self.spec_area(),
    {
        &self.area
    }

    fn index(&self, pos: Pos) -> (r: usize)
        requires
            self.wf(),
            self.spec_area().spec_contains(pos),
        ensures
            r == cell_index(self.spec_area(), pos),
            r < self.cells().len(),
    {
        proof {
            lemma_cell_index(self.area, pos, pos);
        }
        let w = (self.area.x.end - self.area.x.start) as usize;
        let dy = (pos.y - self.area.y.start) as usize;
        let dx = (pos.x - self.area.x.start) as usize;
        assert(0 <= dy * w <= dy * w + dx) by (nonlinear_arith)
            requires
                0 <= dy,
                0 <= w,
                0 <= dx,
        ;
        assert(dy * w + dx == cell_index(self.area, pos));
        assert(dy * w + dx < self.cells.len());
        dy * w + dx
    }

    pub fn get(&self, pos: Pos) -> (r: T)
        requires
            self.wf(),
            self.spec_area().spec_contains(pos),
        ensures
            r == self.spec_get(pos),
    {
        let i = self.index(pos);
        self.cells[i]
    }

    pub fn set(&mut self, pos: Pos, v: T)
        requires
            old(self).wf(),
            old(self).spec_area().spec_contains(pos),
        ensures
            final(self).wf(),
            final(self).spec_area() == old(self).spec_area(),
            final(self).cells() == old(self).cells().update(
                cell_index(old(self).spec_area(), pos),
                v,
            ),
            final(self).spec_get(pos) == v,
            forall|q: Pos|
                old(self).spec_area().spec_contains(q) && q != pos ==> #[trigger] final(self).spec_get(q) == old(self).spec_get(q),
    {
        let i = self.index(pos);
        self.cells.set(i, v);
        proof {
            assert forall|q: Pos|
                self.area.spec_contains(q) && q != pos implies #[trigger] self.spec_get(q)
                == old(self).spec_get(q) by {
                lemma_cell_index(self.area, q, pos);
                lemma_cell_index(self.area, q, q);
            }
        }
    }
}

/// A set of positions of an area.
pub struct PosSet {
    map: PosMap<bool>,
}

impl PosSet {
    pub closed spec fn spec_area(&self) -> PosArea {
        self.map.spec_area()
    }

    pub closed spec fn wf(&self) -> bool {
        self.map.wf()
    }

    pub closed spec fn spec_has(&self, p: Pos) -> bool {
        self.map.spec_get(p)
    }

    /// The empty set over `area`.
    pub fn from(area: &PosArea) -> (r: Self)
        requires
            area.wf(),
            area.size() <= usize::MAX,
        ensures
            r.wf(),
            r.spec_area() == *area,
            forall|p: Pos| area.spec_contains(p) ==> !#[trigger] r.spec_has(p),
    {
        PosSet { map: PosMap::new(area, false) }
    }

    pub fn insert(&mut self, pos: Pos)
        requires
            old(self).wf(),
            old(self).spec_area().spec_contains(pos),
        ensures
            final(self).wf(),
            final(self).spec_area() == old(self).spec_area(),
            final(self).spec_has(pos),
            forall|q: Pos|
                old(self).spec_area().spec_contains(q) && q != pos ==> #[trigger] final(self).spec_has(q) == old(self).spec_has(q),
    {
        self.map.set(pos, true);
    }

    pub fn has_key(&self, pos: Pos) -> (r: bool)
        requires
            self.wf(),
            self.spec_area().spec_contains(pos),
        ensures
            r == self.spec_has(pos),
    {
        self.map.get(pos)
    }
}

} // verus!
