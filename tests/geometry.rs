use gridpath::{grow_range_to, Actor, ActorKind, Dir, Mobile, Pos, PosArea, ScreenPos};

#[test]
fn dir_to_each_neighbour() {
    let p = Pos::new(3, 3);
    assert_eq!(p.dir_to(Pos::new(3, 2)), Some(Dir::Up));
    assert_eq!(p.dir_to(Pos::new(4, 3)), Some(Dir::Right));
    assert_eq!(p.dir_to(Pos::new(3, 4)), Some(Dir::Down));
    assert_eq!(p.dir_to(Pos::new(2, 3)), Some(Dir::Left));
    assert_eq!(p.dir_to(Pos::new(4, 2)), Some(Dir::UpRight));
    assert_eq!(p.dir_to(Pos::new(4, 4)), Some(Dir::RightDown));
    assert_eq!(p.dir_to(Pos::new(2, 4)), Some(Dir::DownLeft));
    assert_eq!(p.dir_to(Pos::new(2, 2)), Some(Dir::LeftUp));
}

#[test]
fn dir_to_not_a_neighbour() {
    let p = Pos::new(3, 3);
    assert_eq!(p.dir_to(p), None);
    assert_eq!(p.dir_to(Pos::new(5, 3)), None);
    assert_eq!(Pos::new(i32::MIN, 0).dir_to(Pos::new(i32::MAX, 0)), None);
}

#[test]
fn in_dir_offsets() {
    let p = Pos::new(0, 0);
    assert_eq!(p.in_dir(Dir::Up), Pos::new(0, -1));
    assert_eq!(p.in_dir(Dir::Right), Pos::new(1, 0));
    assert_eq!(p.in_dir(Dir::Down), Pos::new(0, 1));
    assert_eq!(p.in_dir(Dir::Left), Pos::new(-1, 0));
    assert_eq!(p.in_dir(Dir::UpRight), Pos::new(1, -1));
    assert_eq!(p.in_dir(Dir::RightDown), Pos::new(1, 1));
    assert_eq!(p.in_dir(Dir::DownLeft), Pos::new(-1, 1));
    assert_eq!(p.in_dir(Dir::LeftUp), Pos::new(-1, -1));
}

#[test]
fn dir_to_inverts_in_dir() {
    let p = Pos::new(-7, 12);
    for d in [
        Dir::Up,
        Dir::Right,
        Dir::Down,
        Dir::Left,
        Dir::UpRight,
        Dir::RightDown,
        Dir::DownLeft,
        Dir::LeftUp,
    ] {
        assert_eq!(p.dir_to(p.in_dir(d)), Some(d));
    }
}

#[test]
fn distances() {
    let a = Pos::new(1, 2);
    let b = Pos::new(4, -5);
    assert_eq!(Pos::manhattan_distance(a, b), 10);
    assert_eq!(Pos::mh_distance(a, b), 7);
    assert_eq!(Pos::sq_euclidian_distance(a, b), 58);
    assert_eq!(Pos::manhattan_distance(a, a), 0);
}

#[test]
fn in_grid_bounds() {
    assert!(Pos::new(0, 0).in_grid(3, 2));
    assert!(Pos::new(2, 1).in_grid(3, 2));
    assert!(!Pos::new(3, 1).in_grid(3, 2));
    assert!(!Pos::new(0, -1).in_grid(3, 2));
}

#[test]
fn first_dir_of_path() {
    let p = Pos::new(0, 0);
    assert_eq!(p.first_dir(&vec![]), None);
    assert_eq!(p.first_dir(&vec![Pos::new(0, 1), Pos::new(0, 2)]), Some(Dir::Down));
    assert_eq!(p.first_dir(&vec![Pos::new(0, 2)]), None);
}

#[test]
fn screen_pos_new() {
    let s = ScreenPos::new(4, 9);
    assert_eq!((s.x, s.y), (4, 9));
}

#[test]
fn mobile_actor() {
    let mut a = Actor::new(ActorKind::Rabbit, Pos::new(1, 1));
    assert_eq!(a.get_pos(), Pos::new(1, 1));
    assert_eq!(a.set_pos(Pos::new(2, 1)), Pos::new(1, 1));
    assert_eq!(a.get_pos(), Pos::new(2, 1));
}

#[test]
fn range_growth() {
    let mut r = 2..5;
    grow_range_to(&mut r, 3);
    assert_eq!(r, 2..5);
    grow_range_to(&mut r, 0);
    assert_eq!(r, 0..5);
    grow_range_to(&mut r, 5);
    assert_eq!(r, 0..6);
}

#[test]
fn area_basics() {
    let a = PosArea::new(-2..3, 1..5);
    assert_eq!(a.width(), 5);
    assert_eq!(a.height(), 4);
    assert!(!a.is_empty());
    assert!(a.contains(Pos::new(-2, 1)));
    assert!(a.contains(Pos::new(2, 4)));
    assert!(!a.contains(Pos::new(3, 4)));
    assert!(!a.contains(Pos::new(0, 0)));
    assert!(PosArea::empty().is_empty());
    assert!(PosArea::new(0..3, 2..2).is_empty());
    assert_eq!(a.clone(), a);
}

#[test]
fn area_center_rounds_toward_zero() {
    assert_eq!(PosArea::new(0..5, 0..4).center(), Pos::new(2, 2));
    assert_eq!(PosArea::new(-4..1, -3..0).center(), Pos::new(-1, -1));
    assert_eq!(PosArea::new(i32::MAX - 1..i32::MAX, 0..1).center(), Pos::new(i32::MAX - 1, 0));
}

#[test]
fn area_nearest_clamps() {
    let a = PosArea::new(0..5, 0..5);
    assert_eq!(a.nearest(Pos::new(-3, 2)), Pos::new(0, 2));
    assert_eq!(a.nearest(Pos::new(9, 9)), Pos::new(4, 4));
    assert_eq!(a.nearest(Pos::new(2, -1)), Pos::new(2, 0));
    assert_eq!(a.nearest(Pos::new(3, 1)), Pos::new(3, 1));
}

#[test]
fn area_from_pos_and_grow() {
    let mut a = PosArea::from_pos(Pos::new(2, 3));
    assert_eq!(a, PosArea::new(2..3, 3..4));
    a.grow_to(Pos::new(-1, 6));
    assert_eq!(a, PosArea::new(-1..3, 3..7));
    assert!(a.contains(Pos::new(-1, 6)));
    assert!(a.contains(Pos::new(2, 3)));
}

#[test]
fn center_of_screen_area() {
    let area = gridpath::ScreenArea { left: 3, top: 1, width: 9, height: 4 };
    assert_eq!(Pos::center_of(&area), Pos::new(7, 3));
}
