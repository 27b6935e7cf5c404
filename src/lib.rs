//! Grid geometry and shortest-path search for agents moving on a bounded
//! 2-D board.

pub mod actor;
pub mod board;
pub mod path;
pub mod pos;
pub mod pos_map;

pub use pos::pos_area::{grow_range_to, IntRange, PosArea};
pub use actor::{Actor, ActorKind, ActorPosMap};
pub use board::{Board, Cell};
pub use path::{Goal, PathFinder, ValuedPos};
pub use pos_map::{PosMap, PosSet};
pub use pos::{Dir, Int, Mobile, Pos, ScreenArea, ScreenPos};
