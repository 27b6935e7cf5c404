use vstd::prelude::*;
use crate::pos::pos_area::PosArea;
use crate::pos::Pos;
use crate::pos_map::PosMap;

verus! {

/// What the ground of a position is made of.
#[derive(Debug, Clone, Copy, PartialEq, Eq, Structural)]
pub enum Cell {
    Grass,
    Wall,
    Water,
}

impl Cell {
    /// Agents may walk on grass only.
    pub open spec fn spec_is_enterable(self) -> bool {
        self == Cell::Grass
    }

    pub fn is_enterable(self) -> (r: bool)
        ensures
            r == self.spec_is_enterable(),
    {
        match self {
            Cell::Grass => true,
            _ => false,
        }
    }
}

/// The terrain of the world: a cell for each position of its area.
pub struct Board {
    area: PosArea,
    cells: PosMap<Cell>,
}

impl Board {
    pub closed spec fn spec_area(&self) -> PosArea {
        self.area
    }

    pub closed spec fn wf(&self) -> bool {
        &&& self.cells.wf()
        &&& self.cells.spec_area() == self.area
    }

    /// A well-formed board lies on a well-formed area that memory can hold.
    pub proof fn lemma_wf(&self)
        requires
            self.wf(),
        ensures
            self.spec_area().wf(),
            self.spec_area().size() <= usize::MAX,
    {
    }

    /// The cell at `p`, a position of the area.
    pub closed spec fn spec_get(&self, p: Pos) -> Cell {
        self.cells.spec_get(p)
    }

    pub open spec fn spec_is_enterable(&self, p: Pos) -> bool {
        self.spec_area().spec_contains(p) && self.spec_get(p).spec_is_enterable()
    }

    /// A board over `area` with `fill` everywhere.
    pub fn new(area: PosArea, fill: Cell) -> (r: Self)
        requires
            area.wf(),
            area.size() <= usize::MAX,
        ensures
            r.wf(),
            r.spec_area() == area,
            forall|p: Pos| area.spec_contains(p) ==> #[trigger] r.spec_get(p) == fill,
    {
        let cells = PosMap::new(&area, fill);
        Board { area, cells }
    }

    pub fn area(&self) -> (r: &PosArea)
        ensures
            *r == self.spec_area(),
    {
        &self.area
    }

    pub fn get(&self, pos: Pos) -> (r: Cell)
        requires
            self.wf(),
            self.spec_area().spec_contains(pos),
        ensures
            r == self.spec_get(pos),
    {
        self.cells.get(pos)
    }

    pub fn set(&mut self, pos: Pos, cell: Cell)
        requires
            old(self).wf(),
            old(self).spec_area().spec_contains(pos),
        ensures
            final(self).wf(),
            final(self).spec_area() == old(self).spec_area(),
            final(self).spec_get(pos) == cell,
            forall|q: Pos|
                old(self).spec_area().spec_contains(q) && q != pos ==> #[trigger] final(self).spec_get(q)
                    == old(self).spec_get(q),
    {
        self.cells.set(pos, cell);
    }

    /// Whether an agent may walk on `pos`: never outside the area.
    pub fn is_enterable(&self, pos: Pos) -> (r: bool)
        requires
            self.wf(),
        ensures
            r == self.spec_is_enterable(pos),
    {
        self.area.contains(pos) && self.cells.get(pos).is_enterable()
    }
}

} // verus!
