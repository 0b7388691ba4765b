use gridnav::action::Direction;
use gridnav::coord::{manhattan_distance, Coord};
use gridnav::grid::{Grid, GridError, Neighbor, Tile, MAX_DIM};

fn sample() -> Grid {
    // C W T
    // C D C
    let mut g = Grid::new(3, 2);
    g.set_tile(Coord::new(1, 0), Tile::IMPASSABLE).unwrap();
    g.set_tile(Coord::new(2, 0), Tile::TARGET).unwrap();
    g.set_tile(Coord::new(1, 1), Tile::DIRTY).unwrap();
    g
}

#[test]
fn default_tile_is_clean() {
    assert_eq!(Tile::default(), Tile::CLEAN);
}

#[test]
fn new_grid_is_clean() {
    let g = Grid::new(3, 2);
    assert_eq!(g.width(), 3);
    assert_eq!(g.height(), 2);
    for y in 0..2 {
        for x in 0..3 {
            assert_eq!(g.get_tile(Coord::new(x, y)), Ok(Tile::CLEAN));
        }
    }
}

#[test]
fn empty_grids_have_no_cell() {
    for (w, h) in [(0usize, 0usize), (3, 0), (0, 3)] {
        let g = Grid::new(w, h);
        assert_eq!(g.width(), w);
        assert_eq!(g.height(), h);
        assert!(!g.has_tile(Coord::new(0, 0)));
        assert_eq!(g.get_tile(Coord::new(0, 0)), Err(GridError::OutOfBounds));
        assert!(g.get_tile_iterator().is_empty());
        assert_eq!(g.get_line_iterator().len(), h);
    }
}

#[test]
fn largest_dimension_is_the_largest_coordinate() {
    assert_eq!(MAX_DIM, i32::MAX as usize);
    let g = Grid::new(MAX_DIM, 0);
    assert_eq!(g.width(), MAX_DIM);
}

#[test]
fn has_tile_tells_the_extent() {
    let g = Grid::new(3, 2);
    assert!(g.has_tile(Coord::new(0, 0)));
    assert!(g.has_tile(Coord::new(2, 1)));
    assert!(!g.has_tile(Coord::new(3, 1)));
    assert!(!g.has_tile(Coord::new(2, 2)));
    assert!(!g.has_tile(Coord::new(-1, 0)));
    assert!(!g.has_tile(Coord::new(0, -1)));
    assert!(!g.has_tile(Coord::new(i32::MIN, i32::MAX)));
}

#[test]
fn get_reads_what_set_wrote() {
    let mut g = Grid::new(4, 3);
    for y in 0..3 {
        for x in 0..4 {
            let pos = Coord::new(x, y);
            assert_eq!(g.set_tile(pos, Tile::DIRTY), Ok(()));
            assert_eq!(g.get_tile(pos), Ok(Tile::DIRTY));
        }
    }
    assert_eq!(g.set_tile(Coord::new(2, 1), Tile::TARGET), Ok(()));
    for y in 0..3 {
        for x in 0..4 {
            let want = if (x, y) == (2, 1) { Tile::TARGET } else { Tile::DIRTY };
            assert_eq!(g.get_tile(Coord::new(x, y)), Ok(want));
        }
    }
    assert_eq!(g.width(), 4);
    assert_eq!(g.height(), 3);
}

#[test]
fn outside_the_extent_everything_is_refused() {
    let mut g = sample();
    let before = g.get_tile_iterator();
    for pos in [
        Coord::new(3, 0),
        Coord::new(0, 2),
        Coord::new(-1, 0),
        Coord::new(0, -1),
        Coord::new(3, 2),
        Coord::new(i32::MAX, i32::MAX),
        Coord::new(i32::MIN, i32::MIN),
    ] {
        assert_eq!(g.get_tile(pos), Err(GridError::OutOfBounds));
        assert_eq!(g.set_tile(pos, Tile::DIRTY), Err(GridError::OutOfBounds));
        assert_eq!(g.get_neighbors(&pos), Err(GridError::OutOfBounds));
        assert!(!g.has_tile(pos));
    }
    assert_eq!(g.get_tile_iterator(), before);
}

#[test]
fn inner_cell_has_four_neighbors_in_order() {
    let mut g = Grid::new(3, 3);
    g.set_tile(Coord::new(1, 0), Tile::IMPASSABLE).unwrap();
    g.set_tile(Coord::new(1, 2), Tile::TARGET).unwrap();
    g.set_tile(Coord::new(0, 1), Tile::DIRTY).unwrap();
    assert_eq!(
        g.get_neighbors(&Coord::new(1, 1)),
        Ok(vec![
            Neighbor { position: Coord::new(1, 0), direction: Direction::Up, tile: Tile::IMPASSABLE },
            Neighbor { position: Coord::new(1, 2), direction: Direction::Down, tile: Tile::TARGET },
            Neighbor { position: Coord::new(0, 1), direction: Direction::Left, tile: Tile::DIRTY },
            Neighbor { position: Coord::new(2, 1), direction: Direction::Right, tile: Tile::CLEAN },
        ])
    );
}

#[test]
fn rim_cells_have_fewer_neighbors() {
    let g = Grid::new(3, 3);
    let count = |x: i32, y: i32| g.get_neighbors(&Coord::new(x, y)).unwrap().len();
    assert_eq!(count(0, 0), 2);
    assert_eq!(count(2, 0), 2);
    assert_eq!(count(0, 2), 2);
    assert_eq!(count(2, 2), 2);
    assert_eq!(count(1, 0), 3);
    assert_eq!(count(0, 1), 3);
    assert_eq!(count(2, 1), 3);
    assert_eq!(count(1, 2), 3);
    assert_eq!(count(1, 1), 4);
    assert_eq!(
        g.get_neighbors(&Coord::new(0, 0)),
        Ok(vec![
            Neighbor { position: Coord::new(0, 1), direction: Direction::Down, tile: Tile::CLEAN },
            Neighbor { position: Coord::new(1, 0), direction: Direction::Right, tile: Tile::CLEAN },
        ])
    );
}

#[test]
fn narrow_grids_have_few_neighbors() {
    assert_eq!(Grid::new(1, 1).get_neighbors(&Coord::new(0, 0)), Ok(vec![]));
    let row = Grid::new(3, 1);
    assert_eq!(
        row.get_neighbors(&Coord::new(1, 0)),
        Ok(vec![
            Neighbor { position: Coord::new(0, 0), direction: Direction::Left, tile: Tile::CLEAN },
            Neighbor { position: Coord::new(2, 0), direction: Direction::Right, tile: Tile::CLEAN },
        ])
    );
    let column = Grid::new(1, 3);
    assert_eq!(
        column.get_neighbors(&Coord::new(0, 2)),
        Ok(vec![Neighbor { position: Coord::new(0, 1), direction: Direction::Up, tile: Tile::CLEAN }])
    );
}

#[test]
fn every_neighbor_is_one_step_away_in_its_direction() {
    let g = Grid::new(4, 3);
    for y in 0..3 {
        for x in 0..4 {
            let c = Coord::new(x, y);
            let ns = g.get_neighbors(&c).unwrap();
            assert!(ns.len() <= 4);
            let on_rim = x == 0 || y == 0 || x == 3 || y == 2;
            assert_eq!(ns.len() < 4, on_rim);
            for (i, n) in ns.iter().enumerate() {
                assert_eq!(manhattan_distance(&c, &n.position), 1);
                assert_eq!(c.offset(n.direction.to_ivec2()), n.position);
                assert!(g.has_tile(n.position));
                for m in &ns[i + 1..] {
                    assert_ne!(m.position, n.position);
                    assert_ne!(m.direction, n.direction);
                }
            }
        }
    }
}

#[test]
fn cells_come_row_by_row() {
    let g = sample();
    assert_eq!(
        g.get_tile_iterator(),
        vec![
            (Coord::new(0, 0), Tile::CLEAN),
            (Coord::new(1, 0), Tile::IMPASSABLE),
            (Coord::new(2, 0), Tile::TARGET),
            (Coord::new(0, 1), Tile::CLEAN),
            (Coord::new(1, 1), Tile::DIRTY),
            (Coord::new(2, 1), Tile::CLEAN),
        ]
    );
}

#[test]
fn lines_come_top_to_bottom() {
    let g = sample();
    assert_eq!(
        g.get_line_iterator(),
        vec![
            vec![
                (Coord::new(0, 0), Tile::CLEAN),
                (Coord::new(1, 0), Tile::IMPASSABLE),
                (Coord::new(2, 0), Tile::TARGET),
            ],
            vec![
                (Coord::new(0, 1), Tile::CLEAN),
                (Coord::new(1, 1), Tile::DIRTY),
                (Coord::new(2, 1), Tile::CLEAN),
            ],
        ]
    );
}

#[test]
fn all_of_type_finds_each_kind() {
    let g = sample();
    assert_eq!(g.get_all_of_type(Tile::TARGET), vec![(Coord::new(2, 0), Tile::TARGET)]);
    assert_eq!(g.get_all_of_type(Tile::IMPASSABLE), vec![(Coord::new(1, 0), Tile::IMPASSABLE)]);
    assert_eq!(g.get_all_of_type(Tile::DIRTY), vec![(Coord::new(1, 1), Tile::DIRTY)]);
    assert_eq!(
        g.get_all_of_type(Tile::CLEAN),
        vec![
            (Coord::new(0, 0), Tile::CLEAN),
            (Coord::new(0, 1), Tile::CLEAN),
            (Coord::new(2, 1), Tile::CLEAN),
        ]
    );
    assert_eq!(Grid::new(2, 2).get_all_of_type(Tile::TARGET), vec![]);
}
