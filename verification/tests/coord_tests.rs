use gridnav::action::{Action, Direction};
use gridnav::coord::{manhattan_distance, Coord};

#[test]
fn new_keeps_both_components() {
    let c = Coord::new(-4, 9);
    assert_eq!(c.x, -4);
    assert_eq!(c.y, 9);
}

#[test]
fn manhattan_distance_adds_both_differences() {
    assert_eq!(manhattan_distance(&Coord::new(0, 0), &Coord::new(3, 4)), 7);
    assert_eq!(manhattan_distance(&Coord::new(3, 4), &Coord::new(0, 0)), 7);
    assert_eq!(manhattan_distance(&Coord::new(-2, 5), &Coord::new(1, -1)), 9);
    assert_eq!(manhattan_distance(&Coord::new(6, 6), &Coord::new(6, 6)), 0);
}

#[test]
fn manhattan_distance_of_the_far_corners_fits() {
    let a = Coord::new(i32::MIN, i32::MIN);
    let b = Coord::new(i32::MAX, i32::MAX);
    assert_eq!(manhattan_distance(&a, &b), 8_589_934_590);
    assert_eq!(manhattan_distance(&b, &a), 8_589_934_590);
}

#[test]
fn offset_adds_component_by_component() {
    assert_eq!(Coord::new(2, 3).offset(Coord::new(-1, 0)), Coord::new(1, 3));
    assert_eq!(Coord::new(2, 3).offset(Coord::new(0, 1)), Coord::new(2, 4));
    assert_eq!(Coord::new(-7, 10).offset(Coord::new(7, -10)), Coord::new(0, 0));
    assert_eq!(Coord::new(5, 5).offset(Coord::new(0, 0)), Coord::new(5, 5));
}

#[test]
fn offset_past_the_range_stays() {
    assert_eq!(Coord::new(i32::MAX, 0).offset(Coord::new(1, 0)), Coord::new(i32::MAX, 0));
    assert_eq!(Coord::new(0, i32::MIN).offset(Coord::new(0, -1)), Coord::new(0, i32::MIN));
    assert_eq!(Coord::new(i32::MAX, 4).offset(Coord::new(1, 1)), Coord::new(i32::MAX, 4));
    assert_eq!(
        Coord::new(i32::MAX - 1, i32::MIN + 1).offset(Coord::new(1, -1)),
        Coord::new(i32::MAX, i32::MIN)
    );
}

#[test]
fn directions_come_in_a_fixed_order() {
    assert_eq!(
        Direction::all(),
        [Direction::Up, Direction::Down, Direction::Left, Direction::Right]
    );
}

#[test]
fn directions_are_unit_offsets() {
    assert_eq!(Direction::Up.to_ivec2(), Coord::new(0, -1));
    assert_eq!(Direction::Down.to_ivec2(), Coord::new(0, 1));
    assert_eq!(Direction::Left.to_ivec2(), Coord::new(-1, 0));
    assert_eq!(Direction::Right.to_ivec2(), Coord::new(1, 0));
    for d in Direction::all() {
        assert_eq!(manhattan_distance(&Coord::new(0, 0), &d.to_ivec2()), 1);
    }
}

#[test]
fn actions_compare_by_what_they_do() {
    assert_eq!(
        Action::Move { direction: Direction::Left },
        Action::Move { direction: Direction::Left }
    );
    assert_ne!(Action::Move { direction: Direction::Left }, Action::Wait);
    assert_ne!(
        Action::Move { direction: Direction::Left },
        Action::Move { direction: Direction::Up }
    );
}
