use gridpath::{
    Actor, ActorKind, ActorPosMap, Board, Cell, Goal, PathFinder, Pos, PosArea, PosMap, PosSet,
    ValuedPos,
};

fn open_board(w: i32, h: i32) -> Board {
    Board::new(PosArea::new(0..w, 0..h), Cell::Grass)
}

fn agent_at(x: i32, y: i32) -> Actor {
    Actor::new(ActorKind::Fox, Pos::new(x, y))
}

fn actors_with(board: &Board, agent: Actor) -> ActorPosMap {
    let mut m = ActorPosMap::new(board.area());
    m.set(agent);
    m
}

/// Each position is one cardinal step after the previous one.
fn assert_steps(start: Pos, path: &[Pos]) {
    let mut prev = start;
    for p in path {
        assert_eq!(Pos::manhattan_distance(prev, *p), 1, "{:?} -> {:?}", prev, p);
        prev = *p;
    }
}

#[test]
fn astar_open_area_to_corner() {
    let board = open_board(5, 5);
    let agent = agent_at(0, 0);
    let actors = actors_with(&board, agent);
    let mut pf = PathFinder::new(agent, &board, &actors, 0);
    let goal = Pos::new(4, 4);
    let path = pf.find(Goal::Pos(goal), Some(goal)).unwrap();
    assert_eq!(path.len(), 8);
    assert_eq!(*path.last().unwrap(), goal);
    let mut prev = agent.pos;
    for p in &path {
        let right = p.x == prev.x + 1 && p.y == prev.y;
        let down = p.x == prev.x && p.y == prev.y + 1;
        assert!(right || down, "{:?} -> {:?}", prev, p);
        prev = *p;
    }
}

#[test]
fn wall_off_route_gives_straight_path() {
    let mut board = open_board(5, 5);
    board.set(Pos::new(2, 2), Cell::Wall);
    let agent = agent_at(0, 0);
    let actors = actors_with(&board, agent);
    let expected = vec![Pos::new(1, 0), Pos::new(2, 0), Pos::new(3, 0), Pos::new(4, 0)];
    for seed in 0..4 {
        let mut pf = PathFinder::new(agent, &board, &actors, seed);
        assert_eq!(pf.find(Goal::Pos(Pos::new(4, 0)), None), Some(expected.clone()));
        let mut pf = PathFinder::new(agent, &board, &actors, seed);
        assert_eq!(pf.find(Goal::Pos(Pos::new(4, 0)), Some(Pos::new(4, 0))), Some(expected.clone()));
    }
}

fn column_blocked(ys: std::ops::Range<i32>) -> (Board, ActorPosMap, Actor) {
    let board = open_board(5, 5);
    let agent = agent_at(0, 0);
    let mut actors = actors_with(&board, agent);
    for y in ys {
        actors.set(Actor::new(ActorKind::Rabbit, Pos::new(2, y)));
    }
    (board, actors, agent)
}

#[test]
fn sealed_column_of_agents_gives_no_path() {
    let (board, actors, agent) = column_blocked(0..5);
    let mut pf = PathFinder::new(agent, &board, &actors, 0);
    assert_eq!(pf.find(Goal::Pos(Pos::new(4, 0)), None), None);
    let mut pf = PathFinder::new(agent, &board, &actors, 0);
    assert_eq!(pf.find(Goal::Pos(Pos::new(4, 0)), Some(Pos::new(4, 0))), None);
}

#[test]
fn column_with_gap_is_routed_around() {
    let (board, actors, agent) = column_blocked(0..4);
    for hint in [None, Some(Pos::new(4, 0))] {
        let mut pf = PathFinder::new(agent, &board, &actors, 1);
        let path = pf.find(Goal::Pos(Pos::new(4, 0)), hint).unwrap();
        assert!(path.len() > 4);
        assert!(path.contains(&Pos::new(2, 4)));
        assert_eq!(*path.last().unwrap(), Pos::new(4, 0));
        assert_steps(agent.pos, &path);
        for p in &path {
            assert!(!actors.has_key(*p));
        }
    }
    let mut pf = PathFinder::new(agent, &board, &actors, 1);
    assert_eq!(pf.find(Goal::Pos(Pos::new(4, 0)), None).unwrap().len(), 12);
}

#[test]
fn enclosed_wolf_gives_no_path() {
    let mut board = open_board(7, 7);
    for (x, y) in [(4, 4), (5, 4), (6, 4), (4, 5), (4, 6)] {
        board.set(Pos::new(x, y), Cell::Water);
    }
    let agent = agent_at(0, 0);
    let mut actors = actors_with(&board, agent);
    actors.set(Actor::new(ActorKind::Wolf, Pos::new(6, 6)));
    actors.set(Actor::new(ActorKind::Rabbit, Pos::new(3, 0)));
    let mut pf = PathFinder::new(agent, &board, &actors, 0);
    assert_eq!(pf.find(Goal::ActorKinds(&[ActorKind::Wolf]), None), None);
}

#[test]
fn actor_kind_goal_ends_on_the_actor() {
    let board = open_board(5, 5);
    let agent = agent_at(0, 0);
    let mut actors = actors_with(&board, agent);
    actors.set(Actor::new(ActorKind::Rabbit, Pos::new(3, 0)));
    actors.set(Actor::new(ActorKind::Wolf, Pos::new(0, 4)));
    let mut pf = PathFinder::new(agent, &board, &actors, 2);
    let path = pf.find(Goal::ActorKinds(&[ActorKind::Rabbit, ActorKind::Player]), None).unwrap();
    assert_eq!(path, vec![Pos::new(1, 0), Pos::new(2, 0), Pos::new(3, 0)]);
}

#[test]
fn terrain_goal_reaches_water_not_enterable() {
    let mut board = open_board(5, 5);
    board.set(Pos::new(0, 3), Cell::Water);
    let agent = agent_at(0, 0);
    let actors = actors_with(&board, agent);
    let mut pf = PathFinder::new(agent, &board, &actors, 0);
    let path = pf.find(Goal::Terrain(Cell::Water), None).unwrap();
    assert_eq!(path, vec![Pos::new(0, 1), Pos::new(0, 2), Pos::new(0, 3)]);
    assert!(!board.is_enterable(Pos::new(0, 3)));
}

#[test]
fn goal_next_to_start_gives_one_step() {
    let board = open_board(5, 5);
    let agent = agent_at(2, 2);
    let actors = actors_with(&board, agent);
    for hint in [None, Some(Pos::new(2, 1))] {
        let mut pf = PathFinder::new(agent, &board, &actors, 5);
        assert_eq!(pf.find(Goal::Pos(Pos::new(2, 1)), hint), Some(vec![Pos::new(2, 1)]));
    }
}

#[test]
fn goal_outside_area_is_not_searched_into() {
    let board = open_board(3, 3);
    let agent = agent_at(0, 0);
    let actors = actors_with(&board, agent);
    let mut pf = PathFinder::new(agent, &board, &actors, 0);
    assert_eq!(pf.find(Goal::Pos(Pos::new(9, 9)), None), None);
    let mut pf = PathFinder::new(agent, &board, &actors, 0);
    let path = pf.find(Goal::Pos(Pos::new(3, 1)), None).unwrap();
    assert_eq!(path.len(), 4);
    assert_eq!(*path.last().unwrap(), Pos::new(3, 1));
}

#[test]
fn same_inputs_same_path() {
    let mut board = open_board(6, 6);
    board.set(Pos::new(2, 1), Cell::Wall);
    board.set(Pos::new(1, 3), Cell::Wall);
    let agent = agent_at(0, 0);
    let actors = actors_with(&board, agent);
    for hint in [None, Some(Pos::new(5, 5))] {
        let mut a = PathFinder::new(agent, &board, &actors, 7);
        let mut b = PathFinder::new(agent, &board, &actors, 7);
        let pa = a.find(Goal::Pos(Pos::new(5, 5)), hint);
        assert!(pa.is_some());
        assert_eq!(pa, b.find(Goal::Pos(Pos::new(5, 5)), hint));
        assert_eq!(a.seed, b.seed);
    }
}

#[test]
fn seed_changes_choice_not_length() {
    let mut board = open_board(6, 6);
    board.set(Pos::new(3, 3), Cell::Wall);
    let agent = agent_at(0, 0);
    let actors = actors_with(&board, agent);
    for seed in 0..30 {
        let mut pf = PathFinder::new(agent, &board, &actors, seed);
        let path = pf.find(Goal::Pos(Pos::new(5, 4)), None).unwrap();
        assert_eq!(path.len(), 9);
        assert_steps(agent.pos, &path);
        assert!(pf.seed < 27);
    }
}

#[test]
fn dijkstra_length_is_grid_distance() {
    let board = open_board(8, 8);
    let agent = agent_at(3, 4);
    let actors = actors_with(&board, agent);
    for (x, y) in [(0, 0), (7, 7), (3, 0), (6, 5)] {
        let mut pf = PathFinder::new(agent, &board, &actors, 0);
        let path = pf.find(Goal::Pos(Pos::new(x, y)), None).unwrap();
        assert_eq!(path.len() as i32, Pos::manhattan_distance(agent.pos, Pos::new(x, y)));
        assert_steps(agent.pos, &path);
    }
}

#[test]
fn wide_search_gives_up() {
    let mut board = open_board(120, 120);
    board.set(Pos::new(0, 0), Cell::Water);
    let agent = agent_at(60, 60);
    let actors = actors_with(&board, agent);
    let mut pf = PathFinder::new(agent, &board, &actors, 0);
    assert_eq!(pf.find(Goal::Terrain(Cell::Water), None), None);
    let mut pf = PathFinder::new(agent, &board, &actors, 0);
    assert_eq!(pf.find(Goal::Terrain(Cell::Water), Some(Pos::new(0, 0))).unwrap().len(), 120);
}

#[test]
fn valued_pos_from() {
    let v = ValuedPos::from(Pos::new(1, 2), 17);
    assert_eq!(v.pos, Pos::new(1, 2));
    assert_eq!(v.score, 17);
}

#[test]
fn pos_map_get_set() {
    let area = PosArea::new(-1..2, 3..5);
    let mut m: PosMap<i32> = PosMap::new(&area, 9);
    assert_eq!(m.get(Pos::new(-1, 3)), 9);
    m.set(Pos::new(1, 4), 2);
    m.set(Pos::new(-1, 4), 5);
    assert_eq!(m.get(Pos::new(1, 4)), 2);
    assert_eq!(m.get(Pos::new(-1, 4)), 5);
    assert_eq!(m.get(Pos::new(1, 3)), 9);
    assert_eq!(m.get(Pos::new(0, 4)), 9);
}

#[test]
fn pos_set_insert() {
    let area = PosArea::new(0..3, 0..3);
    let mut s = PosSet::from(&area);
    assert!(!s.has_key(Pos::new(1, 1)));
    s.insert(Pos::new(1, 1));
    assert!(s.has_key(Pos::new(1, 1)));
    assert!(!s.has_key(Pos::new(1, 2)));
}

#[test]
fn actor_map_set_remove() {
    let area = PosArea::new(0..4, 0..4);
    let mut m = ActorPosMap::new(&area);
    let wolf = Actor::new(ActorKind::Wolf, Pos::new(2, 3));
    m.set(wolf);
    assert!(m.has_key(Pos::new(2, 3)));
    assert_eq!(m.get(Pos::new(2, 3)), Some(wolf));
    assert_eq!(m.get(Pos::new(9, 9)), None);
    m.remove(Pos::new(2, 3));
    assert!(!m.has_key(Pos::new(2, 3)));
    m.remove(Pos::new(-5, 0));
}

#[test]
fn board_cells() {
    let mut board = open_board(3, 3);
    assert!(board.is_enterable(Pos::new(1, 1)));
    board.set(Pos::new(1, 1), Cell::Wall);
    assert_eq!(board.get(Pos::new(1, 1)), Cell::Wall);
    assert!(!board.is_enterable(Pos::new(1, 1)));
    assert!(!board.is_enterable(Pos::new(3, 1)));
    assert!(Cell::Grass.is_enterable());
    assert!(!Cell::Water.is_enterable());
}

#[test]
fn astar_squared_heuristic_may_miss_shortest() {
    let mut board = open_board(6, 3);
    for (x, y) in [(1, 1), (2, 1), (3, 1), (5, 0), (5, 2)] {
        board.set(Pos::new(x, y), Cell::Wall);
    }
    let agent = agent_at(0, 0);
    let actors = actors_with(&board, agent);
    let goal = Pos::new(3, 2);
    let mut pf = PathFinder::new(agent, &board, &actors, 0);
    let shortest = pf.find(Goal::Pos(goal), None).unwrap();
    assert_eq!(
        shortest,
        vec![Pos::new(0, 1), Pos::new(0, 2), Pos::new(1, 2), Pos::new(2, 2), Pos::new(3, 2)]
    );
    let mut pf = PathFinder::new(agent, &board, &actors, 0);
    let guided = pf.find(Goal::Pos(goal), Some(goal)).unwrap();
    assert_eq!(guided.len(), 7);
    assert_eq!(*guided.last().unwrap(), goal);
    assert_steps(agent.pos, &guided);
}

#[test]
fn hint_in_range_checks_the_farthest_corner() {
    let board = open_board(5, 5);
    let agent = agent_at(0, 0);
    let actors = actors_with(&board, agent);
    let pf = PathFinder::new(agent, &board, &actors, 0);
    assert!(pf.hint_in_range(Pos::new(4, 4)));
    assert!(pf.hint_in_range(Pos::new(-40_000, 2)));
    assert!(!pf.hint_in_range(Pos::new(-50_000, 2)));
    assert!(!pf.hint_in_range(Pos::new(2, i32::MAX)));
    assert!(!pf.hint_in_range(Pos::new(i32::MIN, i32::MIN)));
}
