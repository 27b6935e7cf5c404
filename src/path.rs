use std::collections::VecDeque;
use vstd::prelude::*;
use crate::actor::{Actor, ActorKind, ActorPosMap};
use crate::board::{Board, Cell};
use crate::pos::{abs, lemma_cardinal_step_dir, lemma_dir_to_in_dir, Dir, Int, Pos};
use crate::pos_map::{cell_index, lemma_cell_index, PosMap, PosSet};

verus! {

/// Beyond this many positions waiting to be expanded, a search gives up.
pub const MAX_OPEN_SIZE: usize = 200;

/// The cost of a position not reached yet.
pub const INFINITY: Int = 32_767;

/// The seed cycles through this many values.
pub const SEED_CYCLE: usize = 27;

/// The cardinal directions, in the order a search tries them before
/// rotation by the seed.
pub open spec fn spec_dir_at(k: int) -> Dir {
    if k == 0 {
        Dir::Up
    } else if k == 1 {
        Dir::Right
    } else if k == 2 {
        Dir::Down
    } else {
        Dir::Left
    }
}

fn dir_at(k: usize) -> (r: Dir)
    requires
        k < 4,
    ensures
        r == spec_dir_at(k as int),
        r.is_cardinal(),
{
    if k == 0 {
        Dir::Up
    } else if k == 1 {
        Dir::Right
    } else if k == 2 {
        Dir::Down
    } else {
        Dir::Left
    }
}

/// A position with the score it was queued with.
#[derive(Debug, Clone, Copy)]
pub struct ValuedPos {
    pub pos: Pos,
    pub score: Int,
}

impl ValuedPos {
    pub fn from(pos: Pos, score: Int) -> (r: Self)
        ensures
            r.pos == pos,
            r.score == score,
    {
        ValuedPos { pos, score }
    }
}

/// What a search looks for.
#[derive(Debug, Clone, Copy)]
pub enum Goal {
    /// This very position.
    Pos(Pos),
    /// A position whose cell is this one.
    Terrain(Cell),
    /// A position where stands an agent of one of these kinds.
    ActorKinds(&'static [ActorKind]),
}

/// The sum of a sequence of costs.
pub open spec fn sum_of(s: Seq<Int>) -> int
    decreases s.len(),
{
    if s.len() == 0 {
        0
    } else {
        sum_of(s.drop_last()) + s.last()
    }
}

proof fn lemma_sum_update(s: Seq<Int>, i: int, v: Int)
    requires
        0 <= i < s.len(),
    ensures
        sum_of(s.update(i, v)) == sum_of(s) - s[i] + v,
    decreases s.len(),
{
    if i == s.len() - 1 {
        assert(s.update(i, v).drop_last() =~= s.drop_last());
    } else {
        lemma_sum_update(s.drop_last(), i, v);
        assert(s.update(i, v).drop_last() =~= s.drop_last().update(i, v));
    }
}

proof fn lemma_sum_nonneg(s: Seq<Int>)
    requires
        forall|k: int| 0 <= k < s.len() ==> s[k] >= 0,
    ensures
        sum_of(s) >= 0,
    decreases s.len(),
{
    if s.len() > 0 {
        lemma_sum_nonneg(s.drop_last());
    }
}

/// How many of the costs are finite.
pub open spec fn finite_count(s: Seq<Int>) -> int
    decreases s.len(),
{
    if s.len() == 0 {
        0
    } else {
        finite_count(s.drop_last()) + if s.last() < INFINITY {
            1int
        } else {
            0int
        }
    }
}

proof fn lemma_finite_count_update(s: Seq<Int>, i: int, v: Int)
    requires
        0 <= i < s.len(),
        s[i] >= INFINITY,
        v < INFINITY,
    ensures
        finite_count(s.update(i, v)) == finite_count(s) + 1,
    decreases s.len(),
{
    if i == s.len() - 1 {
        assert(s.update(i, v).drop_last() =~= s.drop_last());
    } else {
        lemma_finite_count_update(s.drop_last(), i, v);
        assert(s.update(i, v).drop_last() =~= s.drop_last().update(i, v));
    }
}

proof fn lemma_finite_count_bound(s: Seq<Int>)
    ensures
        0 <= finite_count(s) <= s.len(),
    decreases s.len(),
{
    if s.len() > 0 {
        lemma_finite_count_bound(s.drop_last());
    }
}

fn kinds_contain(kinds: &[ActorKind], kind: ActorKind) -> (r: bool)
    ensures
        r == kinds@.contains(kind),
{
    let mut i: usize = 0;
    while i < kinds.len()
        invariant
            i <= kinds@.len(),
            forall|j: int| 0 <= j < i ==> kinds@[j] != kind,
        decreases kinds@.len() - i,
    {
        if kinds[i] == kind {
            return true;
        }
        i = i + 1;
    }
    false
}

/// Takes out the first of the positions with the lowest score.
fn pop_lowest(open_set: &mut Vec<ValuedPos>) -> (r: ValuedPos)
    requires
        old(open_set)@.len() > 0,
    ensures
        exists|k: int|
            0 <= k < old(open_set)@.len() && old(open_set)@[k] == r && final(open_set)@ == old(open_set)@.remove(k),
        forall|k: int| 0 <= k < old(open_set)@.len() ==> r.score <= #[trigger] old(open_set)@[k].score,
{
    let mut best: usize = 0;
    let mut i: usize = 1;
    while i < open_set.len()
        invariant
            open_set@ == old(open_set)@,
            best < i <= open_set@.len(),
            forall|k: int| 0 <= k < i ==> open_set@[best as int].score <= #[trigger] open_set@[k].score,
            forall|k: int| 0 <= k < best ==> open_set@[best as int].score < #[trigger] open_set@[k].score,
        decreases open_set@.len() - i,
    {
        if open_set[i].score < open_set[best].score {
            best = i;
        }
        i = i + 1;
    }
    open_set.remove(best)
}

/// The end of the non-empty range `start..end` farthest from `h`.
fn farthest_in(start: Int, end: Int, h: Int) -> (r: Int)
    requires
        start < end,
    ensures
        start <= r < end,
        abs(start - h) <= abs(r - h),
        abs(end - 1 - h) <= abs(r - h),
{
    let last = end - 1;
    let dl: i64 = if (start as i64) < (h as i64) {
        h as i64 - start as i64
    } else {
        start as i64 - h as i64
    };
    let dh: i64 = if (last as i64) < (h as i64) {
        h as i64 - last as i64
    } else {
        last as i64 - h as i64
    };
    if dl >= dh {
        start
    } else {
        last
    }
}

proof fn lemma_square_le(a: int, b: int)
    requires
        abs(a) <= abs(b),
    ensures
        a * a <= b * b,
{
    let (x, y) = (abs(a), abs(b));
    assert(x * x <= y * y) by (nonlinear_arith)
        requires
            0 <= x <= y,
    ;
    assert(a * a == x * x) by (nonlinear_arith)
        requires
            x == a || x == -a,
    ;
    assert(b * b == y * y) by (nonlinear_arith)
        requires
            y == b || y == -b,
    ;
}

/// The seed following `seed`, cycling through `SEED_CYCLE` values.
fn next_seed(seed: usize) -> (r: usize)
    ensures
        r == (seed + 1) % (SEED_CYCLE as int),
        r < SEED_CYCLE,
{
    (seed % SEED_CYCLE + 1) % SEED_CYCLE
}

/// Finds paths for an agent on a board, the other agents standing still.
pub struct PathFinder<'b> {
    pub actor: Actor,
    pub board: &'b Board,
    pub actors_map: &'b ActorPosMap,
    /// Rotates the order in which directions are tried, so that agents
    /// facing equal choices don't all make the same one.
    pub seed: usize,
}

impl<'b> PathFinder<'b> {
    pub open spec fn wf(&self) -> bool {
        &&& self.board.wf()
        &&& self.actors_map.wf()
        &&& self.board.spec_area().spec_contains(self.actor.pos)
    }

    /// The board lets the agent walk on `p` and nobody stands there.
    pub open spec fn spec_can_enter(&self, p: Pos) -> bool {
        self.board.spec_is_enterable(p) && !self.actors_map.spec_has_key(p)
    }

    pub open spec fn spec_reached(&self, p: Pos, goal: Goal) -> bool {
        match goal {
            Goal::Pos(g) => g == p,
            Goal::Terrain(cell) => self.board.spec_area().spec_contains(p) && self.board.spec_get(
                p,
            ) == cell,
            Goal::ActorKinds(kinds) => match self.actors_map.spec_get(p) {
                Some(a) => kinds@.contains(a.kind),
                None => false,
            },
        }
    }

    /// `path` leads from the agent's position, one cardinal step at a time,
    /// over positions it may enter, to a position meeting `goal`.
    pub open spec fn is_path(&self, goal: Goal, path: Seq<Pos>) -> bool {
        &&& path.len() > 0
        &&& self.actor.pos.is_cardinal_step(path[0])
        &&& forall|i: int| 0 <= i < path.len() - 1 ==> #[trigger] path[i].is_cardinal_step(path[i + 1])
        &&& forall|i: int| 0 <= i < path.len() - 1 ==> self.spec_can_enter(#[trigger] path[i])
        &&& self.spec_reached(path.last(), goal)
    }

    /// No position of the tree but the root meets `goal`.
    pub open spec fn no_goal_inside(&self, g_score: &PosMap<Int>, goal: Goal) -> bool {
        forall|p: Pos|
            #![trigger g_score.spec_get(p)]
            self.board.spec_area().spec_contains(p) && p != self.actor.pos && g_score.spec_get(p)
                < INFINITY ==> !self.spec_reached(p, goal)
    }

    /// No position of `path` but the last is the agent's or meets `goal`,
    /// and no position comes twice.
    pub open spec fn is_simple_path(&self, goal: Goal, path: Seq<Pos>) -> bool {
        &&& forall|i: int|
            0 <= i < path.len() - 1 ==> #[trigger] path[i] != self.actor.pos && !self.spec_reached(
                path[i],
                goal,
            )
        &&& forall|i: int, j: int| 0 <= i < j < path.len() ==> #[trigger] path[i] != #[trigger] path[j]
    }

    /// Some path leads to a position meeting `goal`.
    pub open spec fn path_exists(&self, goal: Goal) -> bool {
        exists|q: Seq<Pos>| #[trigger] self.is_path(goal, q)
    }

    /// The direction tried `i`th from the agent's position: the cardinal
    /// directions rotated by the seed.
    pub open spec fn rotated_dir(&self, i: int) -> Dir {
        spec_dir_at((i + self.seed % 4) % 4)
    }

    /// The `i`th direction tried leads to a goal, and none tried before does.
    pub open spec fn first_goal_turn(&self, goal: Goal, i: int) -> bool {
        &&& 0 <= i < 4
        &&& self.spec_reached(self.actor.pos.spec_in_dir(self.rotated_dir(i)), goal)
        &&& forall|j: int|
            0 <= j < i ==> !self.spec_reached(
                self.actor.pos.spec_in_dir(#[trigger] self.rotated_dir(j)),
                goal,
            )
    }

    /// A neighbour of the agent's position meets `goal`.
    pub open spec fn goal_next_to_start(&self, goal: Goal) -> bool {
        exists|d: Dir| d.is_cardinal() && #[trigger] self.spec_reached(self.actor.pos.spec_in_dir(d), goal)
    }

    /// The squared distance from any position of the board to `hint`,
    /// added to any cost, fits in an `Int`.
    pub open spec fn hint_fits(&self, hint: Pos) -> bool {
        forall|p: Pos| #[trigger]
            self.board.spec_area().spec_contains(p) ==> Pos::spec_sq_euclidian_distance(p, hint)
                <= Int::MAX - INFINITY
    }

    /// `came_from` and `g_score` describe a tree of paths rooted at the
    /// agent's position: every position with a finite cost but the root may
    /// be entered and comes one cardinal step after a cheaper position.
    pub open spec fn tree_inv(&self, came_from: &PosMap<Pos>, g_score: &PosMap<Int>) -> bool {
        let area = self.board.spec_area();
        let start = self.actor.pos;
        &&& came_from.wf()
        &&& g_score.wf()
        &&& came_from.spec_area() == area
        &&& g_score.spec_area() == area
        &&& g_score.spec_get(start) == 0
        &&& forall|k: int|
            0 <= k < g_score.cells().len() ==> 0 <= #[trigger] g_score.cells()[k] <= INFINITY
        &&& forall|p: Pos|
            #![trigger g_score.spec_get(p)]
            area.spec_contains(p) && p != start && g_score.spec_get(p) < INFINITY ==> {
                &&& self.spec_can_enter(p)
                &&& area.spec_contains(came_from.spec_get(p))
                &&& came_from.spec_get(p).is_cardinal_step(p)
                &&& g_score.spec_get(came_from.spec_get(p)) < g_score.spec_get(p)
            }
    }

    proof fn lemma_tree_step(&self, came_from: &PosMap<Pos>, g_score: &PosMap<Int>, p: Pos)
        requires
            self.tree_inv(came_from, g_score),
            self.board.spec_area().spec_contains(p),
            p != self.actor.pos,
            g_score.spec_get(p) < INFINITY,
        ensures
            self.spec_can_enter(p),
            self.board.spec_area().spec_contains(came_from.spec_get(p)),
            came_from.spec_get(p).is_cardinal_step(p),
            g_score.spec_get(came_from.spec_get(p)) < g_score.spec_get(p),
            g_score.spec_get(came_from.spec_get(p)) >= 0,
    {
        let q = came_from.spec_get(p);
        lemma_cell_index(g_score.spec_area(), q, q);
        assert(g_score.cells()[cell_index(g_score.spec_area(), q)] >= 0);
    }

    /// Every position of the tree but the root costs one more than its
    /// predecessor.
    pub open spec fn exact_tree(&self, came_from: &PosMap<Pos>, g_score: &PosMap<Int>) -> bool {
        forall|p: Pos|
            #![trigger g_score.spec_get(p)]
            self.board.spec_area().spec_contains(p) && p != self.actor.pos && g_score.spec_get(p)
                < INFINITY ==> g_score.spec_get(came_from.spec_get(p)) == g_score.spec_get(p) - 1
    }

    /// The neighbour of `u` in direction `d` is not a goal and, if
    /// enterable, costs at most one more than `u`.
    pub open spec fn step_settled(&self, g_score: &PosMap<Int>, u: Pos, d: Dir, goal: Goal) -> bool {
        let n = u.spec_in_dir(d);
        !self.spec_reached(n, goal) && (self.spec_can_enter(n) ==> g_score.spec_get(n)
            <= g_score.spec_get(u) + 1)
    }

    /// No cardinal neighbour of `u` is a goal, and those enterable cost at
    /// most one more than `u`.
    pub open spec fn neighbours_settled(&self, g_score: &PosMap<Int>, u: Pos, goal: Goal) -> bool {
        forall|d: Dir| d.is_cardinal() ==> #[trigger] self.step_settled(g_score, u, d, goal)
    }

    /// `path` meets `goal` and no path meeting it is shorter.
    pub open spec fn is_shortest_path(&self, goal: Goal, path: Seq<Pos>) -> bool {
        &&& self.is_path(goal, path)
        &&& forall|q: Seq<Pos>| #[trigger] self.is_path(goal, q) ==> path.len() <= q.len()
    }

    /// The state of a breadth-first search at level `lvl`: `pending` holds
    /// the positions found and not expanded yet, by increasing cost, and
    /// `done` those expanded.
    pub open spec fn bfs_inv(
        &self,
        came_from: &PosMap<Pos>,
        g_score: &PosMap<Int>,
        pending: Seq<Pos>,
        lvl: int,
        done: Set<Pos>,
        goal: Goal,
    ) -> bool {
        let area = self.board.spec_area();
        &&& self.exact_tree(came_from, g_score)
        &&& 0 <= lvl < INFINITY
        &&& forall|p: Pos|
            #![trigger g_score.spec_get(p)]
            area.spec_contains(p) && g_score.spec_get(p) < INFINITY ==> g_score.spec_get(p) <= lvl + 1
        &&& forall|k: int|
            0 <= k < pending.len() ==> lvl <= g_score.spec_get(#[trigger] pending[k]) <= lvl + 1
        &&& forall|i: int, j: int|
            0 <= i < j < pending.len() ==> g_score.spec_get(#[trigger] pending[i]) <= g_score.spec_get(
                #[trigger] pending[j],
            )
        &&& forall|u: Pos|
            #[trigger] done.contains(u) ==> {
                &&& area.spec_contains(u)
                &&& g_score.spec_get(u) <= lvl
                &&& self.neighbours_settled(g_score, u, goal)
            }
        &&& forall|p: Pos|
            #![trigger g_score.spec_get(p)]
            area.spec_contains(p) && g_score.spec_get(p) < lvl ==> done.contains(p)
        &&& forall|p: Pos|
            #![trigger g_score.spec_get(p)]
            area.spec_contains(p) && g_score.spec_get(p) < INFINITY && !done.contains(p)
                ==> pending.contains(p)
    }

    proof fn lemma_walk_costs(
        &self,
        came_from: &PosMap<Pos>,
        g_score: &PosMap<Int>,
        pending: Seq<Pos>,
        lvl: int,
        done: Set<Pos>,
        goal: Goal,
        q: Seq<Pos>,
        k: int,
    )
        requires
            self.wf(),
            self.tree_inv(came_from, g_score),
            self.bfs_inv(came_from, g_score, pending, lvl, done, goal),
            self.is_path(goal, q),
            q.len() <= lvl,
            0 <= k <= q.len() - 2,
        ensures
            g_score.spec_get(q[k]) <= k + 1,
            self.spec_can_enter(q[k]),
        decreases k,
    {
        let start = self.actor.pos;
        let u = if k == 0 {
            start
        } else {
            q[k - 1]
        };
        if k > 0 {
            self.lemma_walk_costs(came_from, g_score, pending, lvl, done, goal, q, k - 1);
            assert(q[k - 1].is_cardinal_step(q[(k - 1) + 1]));
        }
        assert(self.board.spec_area().spec_contains(u));
        assert(g_score.spec_get(u) <= k);
        assert(done.contains(u));
        let d = lemma_cardinal_step_dir(u, q[k]);
        assert(self.spec_can_enter(q[k]));
        assert(self.step_settled(g_score, u, d, goal));
    }

    /// In a breadth-first search at level `lvl`, every path meeting `goal`
    /// is longer than `lvl`.
    proof fn lemma_bfs_shortest(
        &self,
        came_from: &PosMap<Pos>,
        g_score: &PosMap<Int>,
        pending: Seq<Pos>,
        lvl: int,
        done: Set<Pos>,
        goal: Goal,
        q: Seq<Pos>,
    )
        requires
            self.wf(),
            self.tree_inv(came_from, g_score),
            self.bfs_inv(came_from, g_score, pending, lvl, done, goal),
            self.is_path(goal, q),
        ensures
            q.len() > lvl,
    {
        if q.len() <= lvl {
            let m = q.len() as int;
            let u = if m == 1 {
                self.actor.pos
            } else {
                q[m - 2]
            };
            if m >= 2 {
                self.lemma_walk_costs(came_from, g_score, pending, lvl, done, goal, q, m - 2);
                assert(q[m - 2].is_cardinal_step(q[(m - 2) + 1]));
            }
            assert(done.contains(u));
            let d = lemma_cardinal_step_dir(u, q[m - 1]);
            assert(self.step_settled(g_score, u, d, goal));
        }
    }

    proof fn lemma_exhausted_walk(
        &self,
        came_from: &PosMap<Pos>,
        g_score: &PosMap<Int>,
        lvl: int,
        done: Set<Pos>,
        goal: Goal,
        q: Seq<Pos>,
        k: int,
    )
        requires
            self.wf(),
            self.tree_inv(came_from, g_score),
            self.bfs_inv(came_from, g_score, Seq::empty(), lvl, done, goal),
            lvl + 1 < INFINITY,
            self.is_path(goal, q),
            0 <= k <= q.len() - 2,
        ensures
            done.contains(q[k]),
        decreases k,
    {
        let start = self.actor.pos;
        let u = if k == 0 {
            start
        } else {
            q[k - 1]
        };
        if k > 0 {
            self.lemma_exhausted_walk(came_from, g_score, lvl, done, goal, q, k - 1);
            assert(q[k - 1].is_cardinal_step(q[(k - 1) + 1]));
        } else {
            assert(g_score.spec_get(start) < INFINITY);
            if !done.contains(start) {
                assert(Seq::<Pos>::empty().contains(start));
            }
        }
        assert(done.contains(u));
        let d = lemma_cardinal_step_dir(u, q[k]);
        assert(self.spec_can_enter(q[k]));
        assert(self.step_settled(g_score, u, d, goal));
        assert(g_score.spec_get(q[k]) < INFINITY);
        if !done.contains(q[k]) {
            assert(Seq::<Pos>::empty().contains(q[k]));
        }
    }

    /// A breadth-first search with nothing left to expand has met every
    /// path: none leads to `goal`.
    proof fn lemma_bfs_exhausted(
        &self,
        came_from: &PosMap<Pos>,
        g_score: &PosMap<Int>,
        lvl: int,
        done: Set<Pos>,
        goal: Goal,
        q: Seq<Pos>,
    )
        requires
            self.wf(),
            self.tree_inv(came_from, g_score),
            self.bfs_inv(came_from, g_score, Seq::empty(), lvl, done, goal),
            lvl + 1 < INFINITY,
        ensures
            !self.is_path(goal, q),
    {
        if self.is_path(goal, q) {
            let start = self.actor.pos;
            let m = q.len() as int;
            let u = if m == 1 {
                start
            } else {
                q[m - 2]
            };
            if m >= 2 {
                self.lemma_exhausted_walk(came_from, g_score, lvl, done, goal, q, m - 2);
                assert(q[m - 2].is_cardinal_step(q[(m - 2) + 1]));
            } else {
                assert(g_score.spec_get(start) < INFINITY);
                if !done.contains(start) {
                    assert(Seq::<Pos>::empty().contains(start));
                }
            }
            assert(done.contains(u));
            let d = lemma_cardinal_step_dir(u, q[m - 1]);
            assert(self.step_settled(g_score, u, d, goal));
        }
    }

    /// Taking the first pending position raises the level to its cost.
    proof fn lemma_bfs_advance(
        &self,
        came_from: &PosMap<Pos>,
        g_score: &PosMap<Int>,
        pending: Seq<Pos>,
        lvl: int,
        done: Set<Pos>,
        goal: Goal,
    )
        requires
            self.bfs_inv(came_from, g_score, pending, lvl, done, goal),
            pending.len() > 0,
            g_score.spec_get(pending[0]) < INFINITY,
        ensures
            self.bfs_inv(came_from, g_score, pending, g_score.spec_get(pending[0]) as int, done, goal),
    {
        let new = g_score.spec_get(pending[0]) as int;
        assert forall|k: int| 0 <= k < pending.len() implies new <= g_score.spec_get(
            #[trigger] pending[k],
        ) by {
            if k > 0 {
                assert(g_score.spec_get(pending[0]) <= g_score.spec_get(pending[k]));
            }
        }
        assert forall|p: Pos|
            #![trigger g_score.spec_get(p)]
            self.board.spec_area().spec_contains(p) && g_score.spec_get(p) < new implies done.contains(p) by {
            if !done.contains(p) {
                assert(pending.contains(p));
                let k = choose|k: int| 0 <= k < pending.len() && pending[k] == p;
                assert(new <= g_score.spec_get(pending[k]));
            }
        }
    }

    /// Finding `n` from `current` at the level's cost plus one keeps the
    /// search's state.
    #[verifier::spinoff_prover]
    #[verifier::rlimit(40)]
    proof fn lemma_bfs_discover(
        &self,
        old_came_from: &PosMap<Pos>,
        old_g_score: &PosMap<Int>,
        came_from: &PosMap<Pos>,
        g_score: &PosMap<Int>,
        pending: Seq<Pos>,
        lvl: int,
        done: Set<Pos>,
        goal: Goal,
        current: Pos,
        n: Pos,
    )
        requires
            self.wf(),
            self.tree_inv(old_came_from, old_g_score),
            self.bfs_inv(old_came_from, old_g_score, pending, lvl, done, goal),
            self.board.spec_area().spec_contains(current),
            old_g_score.spec_get(current) == lvl,
            self.spec_can_enter(n),
            old_g_score.spec_get(n) > lvl + 1,
            g_score.spec_get(n) == lvl + 1,
            came_from.spec_get(n) == current,
            forall|k: int|
                0 <= k < pending.len() ==> self.board.spec_area().spec_contains(#[trigger] pending[k]),
            forall|p: Pos|
                self.board.spec_area().spec_contains(p) && p != n ==> {
                    &&& #[trigger] g_score.spec_get(p) == old_g_score.spec_get(p)
                    &&& came_from.spec_get(p) == old_came_from.spec_get(p)
                },
        ensures
            self.bfs_inv(came_from, g_score, pending.push(n), lvl, done, goal),
    {
        let area = self.board.spec_area();
        let start = self.actor.pos;
        let new = pending.push(n);
        assert(old_g_score.spec_get(n) >= INFINITY);
        assert(current != n);
        assert forall|p: Pos|
            #![trigger g_score.spec_get(p)]
            area.spec_contains(p) && p != start && g_score.spec_get(p) < INFINITY implies g_score.spec_get(
                came_from.spec_get(p),
            ) == g_score.spec_get(p) - 1 by {
            if p != n {
                assert(old_g_score.spec_get(p) < INFINITY);
                self.lemma_tree_step(old_came_from, old_g_score, p);
                assert(old_came_from.spec_get(p) != n);
            }
        }
        assert forall|k: int| 0 <= k < new.len() implies lvl <= g_score.spec_get(#[trigger] new[k])
            <= lvl + 1 by {
            if k < pending.len() {
                assert(new[k] == pending[k]);
                assert(lvl <= old_g_score.spec_get(pending[k]) <= lvl + 1);
                assert(pending[k] != n);
                assert(area.spec_contains(pending[k]));
            }
        }
        assert forall|i: int, j: int| 0 <= i < j < new.len() implies g_score.spec_get(
            #[trigger] new[i],
        ) <= g_score.spec_get(#[trigger] new[j]) by {
            assert(new[i] == pending[i]);
            assert(lvl <= old_g_score.spec_get(pending[i]) <= lvl + 1);
            assert(area.spec_contains(pending[i]) && pending[i] != n);
            if j < pending.len() {
                assert(new[j] == pending[j]);
                assert(lvl <= old_g_score.spec_get(pending[j]) <= lvl + 1);
                assert(area.spec_contains(pending[j]) && pending[j] != n);
                assert(old_g_score.spec_get(pending[i]) <= old_g_score.spec_get(pending[j]));
            }
        }
        assert forall|u: Pos| #[trigger] done.contains(u) implies {
            &&& area.spec_contains(u)
            &&& g_score.spec_get(u) <= lvl
            &&& self.neighbours_settled(g_score, u, goal)
        } by {
            assert(u != n);
            assert forall|d: Dir| d.is_cardinal() implies #[trigger] self.step_settled(
                g_score,
                u,
                d,
                goal,
            ) by {
                assert(self.step_settled(old_g_score, u, d, goal));
                if self.spec_can_enter(u.spec_in_dir(d)) {
                    assert(u.spec_in_dir(d) != n);
                }
            }
        }
        assert forall|p: Pos|
            #![trigger g_score.spec_get(p)]
            area.spec_contains(p) && g_score.spec_get(p) < INFINITY && !done.contains(p)
                implies new.contains(p) by {
            if p == n {
                assert(new[new.len() - 1] == n);
            } else {
                assert(old_g_score.spec_get(p) < INFINITY);
                assert(pending.contains(p));
                let k = choose|k: int| 0 <= k < pending.len() && pending[k] == p;
                assert(new[k] == p);
            }
        }
    }

    /// Once every neighbour of `current` is settled, it is expanded.
    proof fn lemma_bfs_expanded(
        &self,
        came_from: &PosMap<Pos>,
        g_score: &PosMap<Int>,
        open: Seq<Pos>,
        lvl: int,
        done: Set<Pos>,
        goal: Goal,
        current: Pos,
        s: int,
    )
        requires
            self.bfs_inv(came_from, g_score, seq![current] + open, lvl, done, goal),
            self.board.spec_area().spec_contains(current),
            g_score.spec_get(current) == lvl,
            0 <= s < 4,
            forall|j: int|
                0 <= j < 4 ==> #[trigger] self.step_settled(
                    g_score,
                    current,
                    spec_dir_at((j + s) % 4),
                    goal,
                ),
        ensures
            self.bfs_inv(came_from, g_score, open, lvl, done.insert(current), goal),
    {
        let all = seq![current] + open;
        let done2 = done.insert(current);
        assert forall|k: int| 0 <= k < open.len() implies lvl <= g_score.spec_get(#[trigger] open[k])
            <= lvl + 1 by {
            assert(open[k] == all[k + 1]);
        }
        assert forall|i: int, j: int| 0 <= i < j < open.len() implies g_score.spec_get(
            #[trigger] open[i],
        ) <= g_score.spec_get(#[trigger] open[j]) by {
            assert(open[i] == all[i + 1]);
            assert(open[j] == all[j + 1]);
        }
        assert forall|d: Dir| d.is_cardinal() implies #[trigger] self.step_settled(
            g_score,
            current,
            d,
            goal,
        ) by {
            let k: int = match d {
                Dir::Up => 0,
                Dir::Right => 1,
                Dir::Down => 2,
                _ => 3,
            };
            let j: int = (k + 4 - s) % 4;
            assert(spec_dir_at((j + s) % 4) == d);
        }
        assert forall|u: Pos| #[trigger] done2.contains(u) implies {
            &&& self.board.spec_area().spec_contains(u)
            &&& g_score.spec_get(u) <= lvl
            &&& self.neighbours_settled(g_score, u, goal)
        } by {
            if u != current {
                assert(done.contains(u));
            }
        }
        assert forall|p: Pos|
            #![trigger g_score.spec_get(p)]
            self.board.spec_area().spec_contains(p) && g_score.spec_get(p) < lvl implies done2.contains(p) by {
            assert(done.contains(p));
        }
        assert forall|p: Pos|
            #![trigger g_score.spec_get(p)]
            self.board.spec_area().spec_contains(p) && g_score.spec_get(p) < INFINITY
                && !done2.contains(p) implies open.contains(p) by {
            assert(all.contains(p));
            let k = choose|k: int| 0 <= k < all.len() && all[k] == p;
            assert(k != 0);
            assert(open[k - 1] == p);
        }
    }

    /// The state of a search that has only found the agent's position.
    proof fn lemma_bfs_start(&self, came_from: &PosMap<Pos>, g_score: &PosMap<Int>, goal: Goal)
        requires
            self.wf(),
            g_score.spec_get(self.actor.pos) == 0,
            forall|p: Pos|
                self.board.spec_area().spec_contains(p) && p != self.actor.pos
                    ==> #[trigger] g_score.spec_get(p) == INFINITY,
        ensures
            self.bfs_inv(came_from, g_score, seq![self.actor.pos], 0, Set::empty(), goal),
    {
        let start = self.actor.pos;
        let pending = seq![start];
        assert forall|p: Pos|
            #![trigger g_score.spec_get(p)]
            self.board.spec_area().spec_contains(p) && g_score.spec_get(p) < INFINITY
                implies pending.contains(p) by {
            assert(p == start);
            assert(pending[0] == start);
        }
    }

    pub fn new(actor: Actor, board: &'b Board, actors_map: &'b ActorPosMap, seed: usize) -> (r: Self)
        ensures
            r.actor == actor,
            r.board == board,
            r.actors_map == actors_map,
            r.seed == seed,
    {
        Self { actor, board, actors_map, seed }
    }

    /// Whether `hint` is close enough to the board for A* scores to fit in
    /// an `Int`, as `find` requires.
    pub fn hint_in_range(&self, hint: Pos) -> (r: bool)
        requires
            self.wf(),
        ensures
            r == self.hint_fits(hint),
    {
        let area = self.board.area();
        if area.x.start >= area.x.end || area.y.start >= area.y.end {
            return true;
        }
        let fx = farthest_in(area.x.start, area.x.end, hint.x);
        let fy = farthest_in(area.y.start, area.y.end, hint.y);
        let dx: i128 = fx as i128 - hint.x as i128;
        let dy: i128 = fy as i128 - hint.y as i128;
        assert(dx * dx <= 0x1_0000_0000_0000_0000 && dy * dy <= 0x1_0000_0000_0000_0000) by (nonlinear_arith)
            requires
                -0x1_0000_0000 <= dx <= 0x1_0000_0000,
                -0x1_0000_0000 <= dy <= 0x1_0000_0000,
        ;
        assert(dx * dx >= 0 && dy * dy >= 0) by (nonlinear_arith);
        let r = dx * dx + dy * dy <= (Int::MAX - INFINITY) as i128;
        proof {
            let c = Pos { x: fx, y: fy };
            assert(Pos::spec_sq_euclidian_distance(c, hint) == dx * dx + dy * dy);
            if r {
                assert forall|p: Pos| #[trigger]
                    self.board.spec_area().spec_contains(p) implies Pos::spec_sq_euclidian_distance(
                    p,
                    hint,
                ) <= Int::MAX - INFINITY by {
                    lemma_square_le(p.x - hint.x, dx as int);
                    lemma_square_le(p.y - hint.y, dy as int);
                }
            } else {
                assert(self.board.spec_area().spec_contains(c));
            }
        }
        r
    }

    /// Finds a path from the agent's position to a position meeting `goal`:
    /// with A* toward `hint` when there is one, else breadth first, which
    /// gives a shortest path. The path holds the goal position but not the
    /// start. `None` when there's no path or when the search grew too large;
    /// breadth first never grows too large on a board of at most
    /// `MAX_OPEN_SIZE` positions.
    pub fn find(&mut self, goal: Goal, hint: Option<Pos>) -> (r: Option<Vec<Pos>>)
        requires
            old(self).wf(),
            hint matches Some(h) ==> old(self).hint_fits(h),
        ensures
            final(self).actor == old(self).actor,
            final(self).board == old(self).board,
            final(self).actors_map == old(self).actors_map,
            final(self).seed == old(self).seed || final(self).seed < SEED_CYCLE,
            match r {
                Some(path) => old(self).is_path(goal, path@),
                None => !old(self).goal_next_to_start(goal),
            },
            old(self).goal_next_to_start(goal) ==> (r matches Some(path) && path@.len() == 1),
            r matches Some(path) ==> old(self).is_simple_path(goal, path@),
            old(self).goal_next_to_start(goal) ==> final(self).seed == old(self).seed && exists|i: int|
                #[trigger] old(self).first_goal_turn(goal, i) && (r matches Some(path) && path@
                    == seq![old(self).actor.pos.spec_in_dir(old(self).rotated_dir(i))]),
            hint is None ==> (r matches Some(path) ==> old(self).is_shortest_path(goal, path@)),
            hint is None && old(self).path_exists(goal) && old(self).board.spec_area().size()
                <= MAX_OPEN_SIZE ==> r is Some,
    {
        match hint {
            // toward a known place A* expands far fewer positions, above
            // all in open spaces
            Some(pos) => self.find_astar(goal, pos),
            None => self.find_dijkstra(goal),
        }
    }

    /// Whether the agent may move to `pos`. A goal is usually not
    /// enterable: it is tested before.
    fn can_enter(&self, pos: Pos) -> (r: bool)
        requires
            self.wf(),
        ensures
            r == self.spec_can_enter(pos),
    {
        self.board.is_enterable(pos) && !self.actors_map.has_key(pos)
    }

    fn reached(&self, pos: Pos, goal: Goal) -> (r: bool)
        requires
            self.wf(),
        ensures
            r == self.spec_reached(pos, goal),
    {
        match goal {
            Goal::Pos(goal_pos) => goal_pos == pos,
            Goal::Terrain(cell) => self.board.area().contains(pos) && self.board.get(pos) == cell,
            Goal::ActorKinds(kinds) => match self.actors_map.get(pos) {
                Some(actor) => kinds_contain(kinds, actor.kind),
                None => false,
            },
        }
    }

    /// The path from the agent's position to `current` in the tree, then on
    /// to `neighbour`.
    fn build_path(
        &self,
        came_from: &PosMap<Pos>,
        g_score: &PosMap<Int>,
        current: Pos,
        neighbour: Pos,
        goal: Goal,
    ) -> (r: Vec<Pos>)
        requires
            self.wf(),
            self.tree_inv(came_from, g_score),
            self.board.spec_area().spec_contains(current),
            g_score.spec_get(current) < INFINITY,
            current.is_cardinal_step(neighbour),
            self.spec_reached(neighbour, goal),
            self.no_goal_inside(g_score, goal),
        ensures
            self.is_path(goal, r@),
            self.is_simple_path(goal, r@),
            current == self.actor.pos ==> r@ == seq![neighbour],
            self.exact_tree(came_from, g_score) ==> r@.len() == g_score.spec_get(current) + 1,
    {
        let start = self.actor.pos;
        let ghost area = self.board.spec_area();
        let mut back: Vec<Pos> = Vec::new();
        back.push(neighbour);
        let mut cur = current;
        while !(cur == start)
            invariant
                self.wf(),
                self.tree_inv(came_from, g_score),
                start == self.actor.pos,
                area == self.board.spec_area(),
                area.spec_contains(cur),
                g_score.spec_get(cur) < INFINITY,
                back@.len() > 0,
                back@[0] == neighbour,
                cur.is_cardinal_step(back@.last()),
                forall|i: int| 0 <= i < back@.len() - 1 ==> #[trigger] back@[i + 1].is_cardinal_step(back@[i]),
                forall|i: int| 1 <= i < back@.len() ==> self.spec_can_enter(#[trigger] back@[i]),
                current == start ==> cur == start && back@ == seq![neighbour],
                self.exact_tree(came_from, g_score) ==> back@.len() + g_score.spec_get(cur)
                    == g_score.spec_get(current) + 1,
                self.no_goal_inside(g_score, goal),
                self.spec_reached(neighbour, goal),
                forall|i: int|
                    1 <= i < back@.len() ==> #[trigger] back@[i] != start && !self.spec_reached(
                        back@[i],
                        goal,
                    ) && area.spec_contains(back@[i]),
                forall|i: int, j: int|
                    1 <= i < j < back@.len() ==> g_score.spec_get(#[trigger] back@[j]) < g_score.spec_get(
                        #[trigger] back@[i],
                    ),
                back@.len() >= 2 ==> g_score.spec_get(cur) < g_score.spec_get(back@.last()),
            decreases g_score.spec_get(cur),
        {
            proof {
                self.lemma_tree_step(came_from, g_score, cur);
            }
            let ghost old_back = back@;
            back.push(cur);
            proof {
                assert(back@ == old_back.push(cur));
                assert forall|i: int| 0 <= i < back@.len() - 1 implies #[trigger] back@[i
                    + 1].is_cardinal_step(back@[i]) by {
                    if i < old_back.len() - 1 {
                        assert(back@[i + 1] == old_back[i + 1]);
                        assert(back@[i] == old_back[i]);
                    }
                }
                assert forall|i: int| 1 <= i < back@.len() implies self.spec_can_enter(
                    #[trigger] back@[i],
                ) by {
                    if i < old_back.len() {
                        assert(back@[i] == old_back[i]);
                    }
                }
                assert forall|i: int| 1 <= i < back@.len() implies #[trigger] back@[i] != start
                    && !self.spec_reached(back@[i], goal) && area.spec_contains(back@[i]) by {
                    if i < old_back.len() {
                        assert(back@[i] == old_back[i]);
                    }
                }
                assert forall|i: int, j: int| 1 <= i < j < back@.len() implies g_score.spec_get(
                    #[trigger] back@[j],
                ) < g_score.spec_get(#[trigger] back@[i]) by {
                    assert(back@[i] == old_back[i]);
                    if j < old_back.len() {
                        assert(back@[j] == old_back[j]);
                    } else if i < old_back.len() - 1 {
                        assert(g_score.spec_get(old_back[old_back.len() - 1]) < g_score.spec_get(
                            old_back[i],
                        ));
                    }
                }
            }
            cur = came_from.get(cur);
        }
        let n = back.len();
        let mut path: Vec<Pos> = Vec::new();
        let mut i: usize = n;
        while i > 0
            invariant
                i <= n,
                n == back@.len(),
                path@.len() == n - i,
                forall|j: int| 0 <= j < n - i ==> path@[j] == back@[n - 1 - j],
            decreases i,
        {
            i = i - 1;
            path.push(back[i]);
        }
        proof {
            assert forall|j: int| 0 <= j < path@.len() - 1 implies #[trigger] path@[j].is_cardinal_step(
                path@[j + 1],
            ) by {
                assert(back@[n - 1 - j] == back@[(n - 2 - j) + 1]);
            }
            assert forall|j: int| 0 <= j < path@.len() - 1 implies self.spec_can_enter(
                #[trigger] path@[j],
            ) by {
                assert(path@[j] == back@[n - 1 - j]);
            }
            assert forall|j: int| 0 <= j < path@.len() - 1 implies #[trigger] path@[j]
                != self.actor.pos && !self.spec_reached(path@[j], goal) by {
                assert(path@[j] == back@[n - 1 - j]);
            }
            assert forall|a: int, b: int| 0 <= a < b < path@.len() implies #[trigger] path@[a]
                != #[trigger] path@[b] by {
                assert(path@[a] == back@[n - 1 - a]);
                assert(path@[b] == back@[n - 1 - b]);
                if n - 1 - b > 0 {
                    assert(g_score.spec_get(back@[n - 1 - a]) < g_score.spec_get(back@[n - 1 - b]));
                }
            }
            if current == start {
                assert(path@ =~= seq![neighbour]);
            }
        }
        path
    }

    /// Makes `current` the predecessor of `neighbour` when that path is
    /// cheaper than the known one, and returns the new cost then.
    fn relax(
        &self,
        came_from: &mut PosMap<Pos>,
        g_score: &mut PosMap<Int>,
        current: Pos,
        neighbour: Pos,
    ) -> (r: Option<Int>)
        requires
            self.wf(),
            self.tree_inv(old(came_from), old(g_score)),
            self.board.spec_area().spec_contains(current),
            old(g_score).spec_get(current) < INFINITY,
            current.is_cardinal_step(neighbour),
            self.spec_can_enter(neighbour),
        ensures
            self.tree_inv(final(came_from), final(g_score)),
            forall|p: Pos|
                self.board.spec_area().spec_contains(p) ==> #[trigger] final(g_score).spec_get(p)
                    <= old(g_score).spec_get(p),
            match r {
                Some(t) => {
                    &&& t == old(g_score).spec_get(current) + 1
                    &&& t < old(g_score).spec_get(neighbour)
                    &&& final(g_score).spec_get(neighbour) == t
                    &&& final(came_from).spec_get(neighbour) == current
                    &&& 0 < t < INFINITY
                    &&& sum_of(final(g_score).cells()) < sum_of(old(g_score).cells())
                    &&& final(g_score).cells() == old(g_score).cells().update(
                        cell_index(self.board.spec_area(), neighbour),
                        t,
                    )
                    &&& 0 <= cell_index(self.board.spec_area(), neighbour) < old(g_score).cells().len()
                    &&& forall|p: Pos|
                        self.board.spec_area().spec_contains(p) && p != neighbour ==> {
                            &&& #[trigger] final(g_score).spec_get(p) == old(g_score).spec_get(p)
                            &&& final(came_from).spec_get(p) == old(came_from).spec_get(p)
                        }
                },
                None => {
                    &&& *final(g_score) == *old(g_score)
                    &&& *final(came_from) == *old(came_from)
                    &&& old(g_score).spec_get(neighbour) <= old(g_score).spec_get(current) + 1
                },
            },
    {
        let ghost area = self.board.spec_area();
        let ghost start = self.actor.pos;
        let tentative_g_score = g_score.get(current) + 1;
        let previous_g_score = g_score.get(neighbour);
        if tentative_g_score < previous_g_score {
            let ghost old_cf = *came_from;
            let ghost old_g = *g_score;
            came_from.set(neighbour, current);
            g_score.set(neighbour, tentative_g_score);
            proof {
                let i = cell_index(area, neighbour);
                lemma_cell_index(area, neighbour, neighbour);
                lemma_cell_index(area, current, current);
                assert(old_g.cells()[cell_index(area, current)] >= 0);
                lemma_sum_update(old_g.cells(), i, tentative_g_score);
                assert forall|k: int|
                    0 <= k < g_score.cells().len() implies 0 <= #[trigger] g_score.cells()[k]
                    <= INFINITY by {
                    if k != i {
                        assert(g_score.cells()[k] == old_g.cells()[k]);
                    }
                }
                assert(neighbour != start);
                assert forall|p: Pos|
                    #![trigger g_score.spec_get(p)]
                    area.spec_contains(p) && p != start && g_score.spec_get(p) < INFINITY implies {
                    &&& self.spec_can_enter(p)
                    &&& area.spec_contains(came_from.spec_get(p))
                    &&& came_from.spec_get(p).is_cardinal_step(p)
                    &&& g_score.spec_get(came_from.spec_get(p)) < g_score.spec_get(p)
                } by {
                    if p != neighbour {
                        assert(old_g.spec_get(p) < INFINITY);
                        self.lemma_tree_step(&old_cf, &old_g, p);
                    }
                }
            }
            Some(tentative_g_score)
        } else {
            None
        }
    }

    /// Finds the shortest path to any position meeting `goal`, expanding
    /// positions in the order they were discovered.
    #[verifier::spinoff_prover]
    #[verifier::rlimit(80)]
    fn find_dijkstra(&mut self, goal: Goal) -> (r: Option<Vec<Pos>>)
        requires
            old(self).wf(),
        ensures
            final(self).actor == old(self).actor,
            final(self).board == old(self).board,
            final(self).actors_map == old(self).actors_map,
            final(self).seed == old(self).seed || final(self).seed < SEED_CYCLE,
            match r {
                Some(path) => old(self).is_shortest_path(goal, path@),
                None => !old(self).goal_next_to_start(goal),
            },
            old(self).goal_next_to_start(goal) ==> (r matches Some(path) && path@.len() == 1),
            r matches Some(path) ==> old(self).is_simple_path(goal, path@),
            old(self).goal_next_to_start(goal) ==> final(self).seed == old(self).seed && exists|i: int|
                #[trigger] old(self).first_goal_turn(goal, i) && (r matches Some(path) && path@
                    == seq![old(self).actor.pos.spec_in_dir(old(self).rotated_dir(i))]),
            old(self).path_exists(goal) && old(self).board.spec_area().size() <= MAX_OPEN_SIZE
                ==> r is Some,
    {
        let start = self.actor.pos;
        let area = self.board.area();
        proof {
            self.board.lemma_wf();
        }
        // positions already expanded
        let mut closed_set = PosSet::from(area);
        // the position preceding each one on the cheapest known path
        let mut came_from: PosMap<Pos> = PosMap::new(area, start);
        // the cost of the cheapest known path to each position
        let mut g_score: PosMap<Int> = PosMap::new(area, INFINITY);
        let ghost g0 = g_score;
        g_score.set(start, 0);
        proof {
            lemma_cell_index(*area, start, start);
            assert forall|k: int|
                0 <= k < g_score.cells().len() implies 0 <= #[trigger] g_score.cells()[k]
                <= INFINITY by {
                if k != cell_index(*area, start) {
                    assert(g_score.cells()[k] == g0.cells()[k]);
                }
            }
            self.lemma_bfs_start(&came_from, &g_score, goal);
            lemma_finite_count_update(g0.cells(), cell_index(*area, start), 0);
            lemma_finite_count_bound(g0.cells());
        }
        // the positions from which to expand
        let mut open_set: VecDeque<Pos> = VecDeque::new();
        open_set.push_back(start);
        let mut seed = self.seed;
        let ghost mut first = true;
        // the cost of the positions being expanded
        let ghost mut lvl: int = 0;
        // the positions expanded
        let ghost mut done: Set<Pos> = Set::empty();
        // how many positions were taken out of `open_set`
        let ghost mut pops: int = 0;
        while open_set.len() > 0
            invariant
                self.wf(),
                *self == *old(self),
                seed == old(self).seed || seed < SEED_CYCLE,
                start == self.actor.pos,
                *area == self.board.spec_area(),
                self.tree_inv(&came_from, &g_score),
                self.no_goal_inside(&g_score, goal),
                closed_set.wf(),
                closed_set.spec_area() == *area,
                forall|k: int|
                    0 <= k < open_set@.len() ==> area.spec_contains(#[trigger] open_set@[k])
                        && g_score.spec_get(open_set@[k]) < INFINITY,
                first ==> seed == old(self).seed,
                first ==> open_set@ == seq![start],
                !first ==> !self.goal_next_to_start(goal),
                self.bfs_inv(&came_from, &g_score, open_set@, lvl, done, goal),
                0 <= lvl <= pops,
                pops + open_set@.len() <= finite_count(g_score.cells()),
                forall|p: Pos|
                    area.spec_contains(p) && #[trigger] closed_set.spec_has(p) ==> g_score.spec_get(p)
                        < INFINITY,
            decreases 2 * sum_of(g_score.cells()) + open_set@.len(),
        {
            proof {
                lemma_sum_nonneg(g_score.cells());
            }
            let ghost m0 = 2 * sum_of(g_score.cells()) + open_set@.len();
            let ghost before = open_set@;
            let current = match open_set.pop_front() {
                Some(c) => c,
                None => return None,
            };
            assert(area.spec_contains(current) && g_score.spec_get(current) < INFINITY);
            proof {
                self.lemma_bfs_advance(&came_from, &g_score, before, lvl, done, goal);
                lvl = g_score.spec_get(current) as int;
                pops = pops + 1;
                assert(seq![current] + open_set@ =~= before);
            }
            closed_set.insert(current);
            let s = seed % 4;
            let mut i: usize = 0;
            while i < 4
                invariant
                    self.wf(),
                    *self == *old(self),
                    seed == old(self).seed || seed < SEED_CYCLE,
                    start == self.actor.pos,
                    *area == self.board.spec_area(),
                    self.tree_inv(&came_from, &g_score),
                self.no_goal_inside(&g_score, goal),
                    closed_set.wf(),
                    closed_set.spec_area() == *area,
                    forall|k: int|
                        0 <= k < open_set@.len() ==> area.spec_contains(#[trigger] open_set@[k])
                            && g_score.spec_get(open_set@[k]) < INFINITY,
                    area.spec_contains(current),
                    g_score.spec_get(current) < INFINITY,
                    2 * sum_of(g_score.cells()) + open_set@.len() < m0,
                    i <= 4,
                    s < 4,
                    s == seed % 4,
                    first ==> current == start,
                    first ==> seed == old(self).seed,
                    first ==> forall|j: int|
                        0 <= j < i ==> !self.spec_reached(
                            start.spec_in_dir(#[trigger] spec_dir_at((j + s) % 4)),
                            goal,
                        ),
                    !first ==> !self.goal_next_to_start(goal),
                    self.bfs_inv(&came_from, &g_score, seq![current] + open_set@, lvl, done, goal),
                    g_score.spec_get(current) == lvl,
                    0 <= lvl <= pops,
                    pops + open_set@.len() <= finite_count(g_score.cells()),
                    forall|j: int|
                        0 <= j < i ==> #[trigger] self.step_settled(
                            &g_score,
                            current,
                            spec_dir_at((j + s) % 4),
                            goal,
                        ),
                    forall|p: Pos|
                        area.spec_contains(p) && #[trigger] closed_set.spec_has(p) ==> g_score.spec_get(p) < INFINITY,
                decreases 4 - i,
            {
                // rotating the directions keeps equally short paths from
                // always being chosen in the same order
                let dir = dir_at((i + s) % 4);
                let neighbour = current.in_dir(dir);
                proof {
                    lemma_dir_to_in_dir(current, dir);
                }
                if self.reached(neighbour, goal) {
                    let path = self.build_path(&came_from, &g_score, current, neighbour, goal);
                    proof {
                        if first {
                            assert forall|j: int| 0 <= j < i implies !self.spec_reached(
                                self.actor.pos.spec_in_dir(#[trigger] self.rotated_dir(j)),
                                goal,
                            ) by {
                                assert(self.rotated_dir(j) == spec_dir_at((j + s) % 4));
                            }
                            assert(self.first_goal_turn(goal, i as int));
                        }
                    }
                    proof {
                        assert forall|q: Seq<Pos>| #[trigger] self.is_path(goal, q) implies path@.len()
                            <= q.len() by {
                            self.lemma_bfs_shortest(
                                &came_from,
                                &g_score,
                                seq![current] + open_set@,
                                lvl,
                                done,
                                goal,
                                q,
                            );
                        }
                    }
                    self.seed = seed;
                    return Some(path);
                }
                if self.can_enter(neighbour) && !closed_set.has_key(neighbour) {
                    let ghost len0 = open_set@.len();
                    let ghost g0 = g_score;
                    let ghost cf0 = came_from;
                    let ghost open0 = open_set@;
                    if let Some(t) = self.relax(&mut came_from, &mut g_score, current, neighbour) {
                        open_set.push_back(neighbour);
                        proof {
                            assert forall|p: Pos|
                                #![trigger g_score.spec_get(p)]
                                self.board.spec_area().spec_contains(p) && p != self.actor.pos
                                    && g_score.spec_get(p) < INFINITY implies !self.spec_reached(p, goal) by {
                                if p != neighbour {
                                    assert(g0.spec_get(p) < INFINITY);
                                }
                            }
                        }
                        proof {
                            lemma_finite_count_update(
                                g0.cells(),
                                cell_index(*area, neighbour),
                                t,
                            );
                            assert forall|k: int| 0 <= k < (seq![current] + open0).len() implies area.spec_contains(
                                #[trigger] (seq![current] + open0)[k],
                            ) by {
                                if k > 0 {
                                    assert((seq![current] + open0)[k] == open0[k - 1]);
                                }
                            }
                            self.lemma_bfs_discover(
                                &cf0,
                                &g0,
                                &came_from,
                                &g_score,
                                seq![current] + open0,
                                lvl,
                                done,
                                goal,
                                current,
                                neighbour,
                            );
                            assert((seq![current] + open0).push(neighbour) =~= seq![current]
                                + open_set@);
                            assert forall|j: int| 0 <= j < i implies #[trigger] self.step_settled(
                                &g_score,
                                current,
                                spec_dir_at((j + s) % 4),
                                goal,
                            ) by {
                                assert(self.step_settled(&g0, current, spec_dir_at((j + s) % 4), goal));
                            }
                        }
                    }
                    assert forall|k: int|
                        0 <= k < open_set@.len() implies area.spec_contains(#[trigger] open_set@[k])
                        && g_score.spec_get(open_set@[k]) < INFINITY by {
                        if k < len0 {
                            assert(g0.spec_get(open_set@[k]) < INFINITY);
                        }
                    }
                }
                assert(self.step_settled(&g_score, current, spec_dir_at((i + s) % 4), goal));
                i = i + 1;
            }
            proof {
                self.lemma_bfs_expanded(&came_from, &g_score, open_set@, lvl, done, goal, current, s as int);
                done = done.insert(current);
                if first {
                    assert forall|d: Dir| d.is_cardinal() implies !#[trigger] self.spec_reached(
                        start.spec_in_dir(d),
                        goal,
                    ) by {
                        let k: int = match d {
                            Dir::Up => 0,
                            Dir::Right => 1,
                            Dir::Down => 2,
                            _ => 3,
                        };
                        let j: int = (k + 4 - s) % 4;
                        assert(spec_dir_at((j + s) % 4) == d);
                    }
                }
                first = false;
            }
            proof {
                lemma_finite_count_bound(g_score.cells());
            }
            if open_set.len() > MAX_OPEN_SIZE {
                // the search is taking too long
                self.seed = seed;
                return None;
            }
            seed = next_seed(seed);
            proof {
                lemma_sum_nonneg(g_score.cells());
            }
        }
        proof {
            lemma_finite_count_bound(g_score.cells());
            if area.size() <= MAX_OPEN_SIZE {
                assert(open_set@ =~= Seq::<Pos>::empty());
                assert forall|q: Seq<Pos>| !#[trigger] self.is_path(goal, q) by {
                    self.lemma_bfs_exhausted(&came_from, &g_score, lvl, done, goal, q);
                }
            }
        }
        self.seed = seed;
        None
    }

    /// Finds a path to a position meeting `goal` with A*, expanding first
    /// the positions whose cost plus squared distance to `hint` is lowest.
    fn find_astar(&mut self, goal: Goal, hint: Pos) -> (r: Option<Vec<Pos>>)
        requires
            old(self).wf(),
            old(self).hint_fits(hint),
        ensures
            final(self).actor == old(self).actor,
            final(self).board == old(self).board,
            final(self).actors_map == old(self).actors_map,
            final(self).seed == old(self).seed || final(self).seed < SEED_CYCLE,
            match r {
                Some(path) => old(self).is_path(goal, path@),
                None => !old(self).goal_next_to_start(goal),
            },
            old(self).goal_next_to_start(goal) ==> (r matches Some(path) && path@.len() == 1),
            r matches Some(path) ==> old(self).is_simple_path(goal, path@),
            old(self).goal_next_to_start(goal) ==> final(self).seed == old(self).seed && exists|i: int|
                #[trigger] old(self).first_goal_turn(goal, i) && (r matches Some(path) && path@
                    == seq![old(self).actor.pos.spec_in_dir(old(self).rotated_dir(i))]),
    {
        let start = self.actor.pos;
        let area = self.board.area();
        proof {
            self.board.lemma_wf();
        }
        // positions already expanded
        let mut closed_set = PosSet::from(area);
        // the position preceding each one on the cheapest known path
        let mut came_from: PosMap<Pos> = PosMap::new(area, start);
        // the cost of the cheapest known path to each position
        let mut g_score: PosMap<Int> = PosMap::new(area, INFINITY);
        let ghost g0 = g_score;
        g_score.set(start, 0);
        proof {
            lemma_cell_index(*area, start, start);
            assert forall|k: int|
                0 <= k < g_score.cells().len() implies 0 <= #[trigger] g_score.cells()[k]
                <= INFINITY by {
                if k != cell_index(*area, start) {
                    assert(g_score.cells()[k] == g0.cells()[k]);
                }
            }
        }
        // the positions from which to expand
        let mut open_set: Vec<ValuedPos> = Vec::new();
        open_set.push(ValuedPos::from(start, Pos::sq_euclidian_distance(start, hint)));
        let mut seed = self.seed;
        let ghost mut first = true;
        while open_set.len() > 0
            invariant
                self.wf(),
                self.hint_fits(hint),
                *self == *old(self),
                seed == old(self).seed || seed < SEED_CYCLE,
                start == self.actor.pos,
                *area == self.board.spec_area(),
                self.tree_inv(&came_from, &g_score),
                self.no_goal_inside(&g_score, goal),
                closed_set.wf(),
                closed_set.spec_area() == *area,
                forall|k: int|
                    0 <= k < open_set@.len() ==> area.spec_contains(#[trigger] open_set@[k].pos)
                        && g_score.spec_get(open_set@[k].pos) < INFINITY,
                first ==> seed == old(self).seed,
                first ==> open_set@.len() == 1 && open_set@[0].pos == start,
                !first ==> !self.goal_next_to_start(goal),
            decreases 2 * sum_of(g_score.cells()) + open_set@.len(),
        {
            proof {
                lemma_sum_nonneg(g_score.cells());
            }
            let ghost m0 = 2 * sum_of(g_score.cells()) + open_set@.len();
            let ghost before = open_set@;
            let current = pop_lowest(&mut open_set).pos;
            proof {
                let k = choose|k: int| 0 <= k < before.len() && before[k].pos == current && open_set@ == before.remove(k);
                assert forall|j: int| 0 <= j < open_set@.len() implies area.spec_contains(#[trigger] open_set@[j].pos)
                    && g_score.spec_get(open_set@[j].pos) < INFINITY by {
                    if j < k {
                        assert(open_set@[j] == before[j]);
                    } else {
                        assert(open_set@[j] == before[j + 1]);
                    }
                }
            }
            assert(area.spec_contains(current) && g_score.spec_get(current) < INFINITY);
            closed_set.insert(current);
            let s = seed % 4;
            let mut i: usize = 0;
            while i < 4
                invariant
                    self.wf(),
                    self.hint_fits(hint),
                    *self == *old(self),
                    seed == old(self).seed || seed < SEED_CYCLE,
                    start == self.actor.pos,
                    *area == self.board.spec_area(),
                    self.tree_inv(&came_from, &g_score),
                self.no_goal_inside(&g_score, goal),
                    closed_set.wf(),
                    closed_set.spec_area() == *area,
                    forall|k: int|
                        0 <= k < open_set@.len() ==> area.spec_contains(#[trigger] open_set@[k].pos)
                            && g_score.spec_get(open_set@[k].pos) < INFINITY,
                    area.spec_contains(current),
                    g_score.spec_get(current) < INFINITY,
                    2 * sum_of(g_score.cells()) + open_set@.len() < m0,
                    i <= 4,
                    s < 4,
                    s == seed % 4,
                    first ==> current == start,
                    first ==> seed == old(self).seed,
                    first ==> forall|j: int|
                        0 <= j < i ==> !self.spec_reached(
                            start.spec_in_dir(#[trigger] spec_dir_at((j + s) % 4)),
                            goal,
                        ),
                    !first ==> !self.goal_next_to_start(goal),
                decreases 4 - i,
            {
                // rotating the directions keeps equally short paths from
                // always being chosen in the same order
                let dir = dir_at((i + s) % 4);
                let neighbour = current.in_dir(dir);
                proof {
                    lemma_dir_to_in_dir(current, dir);
                }
                if self.reached(neighbour, goal) {
                    let path = self.build_path(&came_from, &g_score, current, neighbour, goal);
                    proof {
                        if first {
                            assert forall|j: int| 0 <= j < i implies !self.spec_reached(
                                self.actor.pos.spec_in_dir(#[trigger] self.rotated_dir(j)),
                                goal,
                            ) by {
                                assert(self.rotated_dir(j) == spec_dir_at((j + s) % 4));
                            }
                            assert(self.first_goal_turn(goal, i as int));
                        }
                    }
                    self.seed = seed;
                    return Some(path);
                }
                if self.can_enter(neighbour) && !closed_set.has_key(neighbour) {
                    let ghost len0 = open_set@.len();
                    let ghost g0 = g_score;
                    if let Some(t) = self.relax(&mut came_from, &mut g_score, current, neighbour) {
                        assert(self.board.spec_area().spec_contains(neighbour));
                        let h_score = Pos::sq_euclidian_distance(neighbour, hint);
                        let f_score = t + h_score;
                        open_set.push(ValuedPos::from(neighbour, f_score));
                        proof {
                            assert forall|p: Pos|
                                #![trigger g_score.spec_get(p)]
                                self.board.spec_area().spec_contains(p) && p != self.actor.pos
                                    && g_score.spec_get(p) < INFINITY implies !self.spec_reached(p, goal) by {
                                if p != neighbour {
                                    assert(g0.spec_get(p) < INFINITY);
                                }
                            }
                        }
                    }
                    assert forall|k: int|
                        0 <= k < open_set@.len() implies area.spec_contains(#[trigger] open_set@[k].pos)
                        && g_score.spec_get(open_set@[k].pos) < INFINITY by {
                        if k < len0 {
                            assert(g0.spec_get(open_set@[k].pos) < INFINITY);
                        }
                    }
                }
                i = i + 1;
            }
            proof {
                if first {
                    assert forall|d: Dir| d.is_cardinal() implies !#[trigger] self.spec_reached(
                        start.spec_in_dir(d),
                        goal,
                    ) by {
                        let k: int = match d {
                            Dir::Up => 0,
                            Dir::Right => 1,
                            Dir::Down => 2,
                            _ => 3,
                        };
                        let j: int = (k + 4 - s) % 4;
                        assert(spec_dir_at((j + s) % 4) == d);
                    }
                }
                first = false;
            }
            if open_set.len() > MAX_OPEN_SIZE {
                // the search is taking too long
                self.seed = seed;
                return None;
            }
            seed = next_seed(seed);
            proof {
                lemma_sum_nonneg(g_score.cells());
            }
        }
        self.seed = seed;
        None
    }
}

/// A path that no path to the goal beats is as short as any path to the
/// position where it ends: its length is the distance from the agent to
/// that position.
pub proof fn lemma_shortest_is_distance(finder: &PathFinder, goal: Goal, path: Seq<Pos>, q: Seq<Pos>)
    requires
        finder.is_shortest_path(goal, path),
        finder.is_path(Goal::Pos(path.last()), q),
    ensures
        path.len() <= q.len(),
{
    assert(finder.is_path(goal, q));
}

/// The seed only chooses among shortest paths: two breadth-first searches
/// that differ in their seed alone find paths of the same length.
pub proof fn lemma_seed_keeps_length(
    a: &PathFinder,
    b: &PathFinder,
    goal: Goal,
    path_a: Seq<Pos>,
    path_b: Seq<Pos>,
)
    requires
        a.actor == b.actor,
        a.board == b.board,
        a.actors_map == b.actors_map,
        a.is_shortest_path(goal, path_a),
        b.is_shortest_path(goal, path_b),
    ensures
        path_a.len() == path_b.len(),
{
    assert(a.is_path(goal, path_b));
    assert(b.is_path(goal, path_a));
}

} // verus!
