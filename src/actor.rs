use vstd::prelude::*;
use crate::pos::pos_area::PosArea;
use crate::pos::{Mobile, Pos};
use crate::pos_map::PosMap;

verus! {

#[derive(Debug, Clone, Copy, PartialEq, Eq, Structural)]
pub enum ActorKind {
    Player,
    Rabbit,
    Fox,
    Wolf,
}

/// An agent of the world.
#[derive(Debug, Clone, Copy, PartialEq, Eq, Structural)]
pub struct Actor {
    pub kind: ActorKind,
    pub pos: Pos,
}

impl Actor {
    pub fn new(kind: ActorKind, pos: Pos) -> (r: Self)
        ensures
            r.kind == kind,
            r.pos == pos,
    {
        Actor { kind, pos }
    }
}

impl Mobile for Actor {
    open spec fn spec_pos(&self) -> Pos {
        self.pos
    }

    fn get_pos(&self) -> (r: Pos) {
        self.pos
    }

    fn set_pos(&mut self, pos: Pos) -> (r: Pos) {
        let previous = self.pos;
        self.pos = pos;
        previous
    }
}

/// Which agent stands where, over an area.
pub struct ActorPosMap {
    map: PosMap<Option<Actor>>,
}

impl ActorPosMap {
    pub closed spec fn spec_area(&self) -> PosArea {
        self.map.spec_area()
    }

    pub closed spec fn wf(&self) -> bool {
        self.map.wf()
    }

    /// The agent at `p`; none outside the area.
    pub closed spec fn spec_get(&self, p: Pos) -> Option<Actor> {
        if self.spec_area().spec_contains(p) {
            self.map.spec_get(p)
        } else {
            None
        }
    }

    pub open spec fn spec_has_key(&self, p: Pos) -> bool {
        self.spec_get(p).is_some()
    }

    /// A map over `area` with nobody on it.
    pub fn new(area: &PosArea) -> (r: Self)
        requires
            area.wf(),
            area.size() <= usize::MAX,
        ensures
            r.wf(),
            r.spec_area() == *area,
            forall|p: Pos| #[trigger] r.spec_get(p) == None::<Actor>,
    {
        ActorPosMap { map: PosMap::new(area, None) }
    }

    /// Puts `actor` at its position, replacing whoever stood there.
    pub fn set(&mut self, actor: Actor)
        requires
            old(self).wf(),
            old(self).spec_area().spec_contains(actor.pos),
        ensures
            final(self).wf(),
            final(self).spec_area() == old(self).spec_area(),
            final(self).spec_get(actor.pos) == Some(actor),
            forall|q: Pos| q != actor.pos ==> #[trigger] final(self).spec_get(q) == old(self).spec_get(q),
    {
        self.map.set(actor.pos, Some(actor));
    }

    /// Takes away whoever stands at `pos`.
    pub fn remove(&mut self, pos: Pos)
        requires
            old(self).wf(),
        ensures
            final(self).wf(),
            final(self).spec_area() == old(self).spec_area(),
            final(self).spec_get(pos) == None::<Actor>,
            forall|q: Pos| q != pos ==> #[trigger] final(self).spec_get(q) == old(self).spec_get(q),
    {
        if self.contains_pos(pos) {
            self.map.set(pos, None);
        }
    }

    fn contains_pos(&self, pos: Pos) -> (r: bool)
        ensures
            r == self.spec_area().spec_contains(pos),
    {
        self.map.area().contains(pos)
    }

    pub fn has_key(&self, pos: Pos) -> (r: bool)
        requires
            self.wf(),
        ensures
            r == self.spec_has_key(pos),
    {
        self.get(pos).is_some()
    }

    pub fn get(&self, pos: Pos) -> (r: Option<Actor>)
        requires
            self.wf(),
        ensures
            r == self.spec_get(pos),
    {
        if self.contains_pos(pos) {
            self.map.get(pos)
        } else {
            None
        }
    }
}

} // verus!
