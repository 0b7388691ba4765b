use gridnav::coord::{manhattan_distance, Coord};
use gridnav::environment::{Agent, Environment, EnvironmentState, Robot, SimulationEnvironment};
use gridnav::grid::{Grid, Tile};

fn walk(grid: Grid, start: Coord, goal: Coord, max_ticks: u32) -> (Vec<Coord>, EnvironmentState, u32) {
    let mut env = SimulationEnvironment::new(grid, start, goal);
    let mut path = vec![env.robot_position()];
    for _ in 0..max_ticks {
        env.run();
        path.push(env.robot_position());
        if env.get_state().0 == EnvironmentState::END {
            break;
        }
    }
    let (state, turns) = env.get_state();
    (path, state, turns)
}

#[test]
fn robot_shows_as_r() {
    let robot = Robot { position: Coord::new(3, 4) };
    assert_eq!(robot.get_symbol(), "R");
    assert_eq!(robot.position(), Coord::new(3, 4));
}

#[test]
fn new_simulation_has_not_started() {
    let env = SimulationEnvironment::new(Grid::new(3, 2), Coord::new(0, 1), Coord::new(2, 0));
    assert_eq!(env.get_state(), (EnvironmentState::START, 0));
    assert_eq!(env.robot_position(), Coord::new(0, 1));
    assert_eq!(env.goal_position(), Coord::new(2, 0));
    assert!(!env.is_stuck());
    assert_eq!(env.get_map().width(), 3);
    assert_eq!(env.get_map().height(), 2);
    let agents = env.get_agents();
    assert_eq!(agents.len(), 1);
    assert_eq!(agents[0].position(), Coord::new(0, 1));
    assert_eq!(env.get_goal(agents[0]), Some(Coord::new(2, 0)));
    assert!(env.get_environment_info().is_empty());
}

#[test]
fn three_by_one_reaches_the_target_in_two_ticks() {
    let grid = Grid::parse("CCT").unwrap();
    let goal = grid.get_all_of_type(Tile::TARGET)[0].0;
    assert_eq!(goal, Coord::new(2, 0));
    let (path, state, turns) = walk(grid, Coord::new(0, 0), goal, 10);
    assert_eq!(path, vec![Coord::new(0, 0), Coord::new(1, 0), Coord::new(2, 0)]);
    assert_eq!(state, EnvironmentState::END);
    assert_eq!(turns, 2);
}

#[test]
fn state_runs_until_the_robot_arrives() {
    let grid = Grid::parse("CCT").unwrap();
    let mut env = SimulationEnvironment::new(grid, Coord::new(0, 0), Coord::new(2, 0));
    env.run();
    assert_eq!(env.get_state(), (EnvironmentState::RUN, 1));
    assert_eq!(env.robot_position(), Coord::new(1, 0));
    env.run();
    assert_eq!(env.get_state(), (EnvironmentState::END, 2));
    assert_eq!(env.robot_position(), Coord::new(2, 0));
}

#[test]
fn impassable_row_is_walked_through() {
    let grid = Grid::parse("CCC\nWWW\nCCT\n").unwrap();
    let (path, state, turns) = walk(grid, Coord::new(0, 0), Coord::new(2, 2), 20);
    assert_eq!(
        path,
        vec![
            Coord::new(0, 0),
            Coord::new(1, 0),
            Coord::new(2, 0),
            Coord::new(2, 1),
            Coord::new(2, 2),
        ]
    );
    assert_eq!(state, EnvironmentState::END);
    assert_eq!(turns, 4);
}

#[test]
fn robot_on_the_goal_arrives_with_the_first_tick() {
    let (path, state, turns) = walk(Grid::new(2, 2), Coord::new(1, 1), Coord::new(1, 1), 5);
    assert_eq!(path, vec![Coord::new(1, 1), Coord::new(1, 1)]);
    assert_eq!(state, EnvironmentState::END);
    assert_eq!(turns, 1);
}

#[test]
fn ticks_after_arrival_only_count() {
    let grid = Grid::parse("CT").unwrap();
    let mut env = SimulationEnvironment::new(grid, Coord::new(0, 0), Coord::new(1, 0));
    env.run();
    assert_eq!(env.get_state(), (EnvironmentState::END, 1));
    let stuck = env.is_stuck();
    for n in 2..6 {
        env.run();
        assert_eq!(env.get_state(), (EnvironmentState::END, n));
        assert_eq!(env.robot_position(), Coord::new(1, 0));
        assert_eq!(env.is_stuck(), stuck);
    }
}

#[test]
fn equal_runs_visit_equal_positions() {
    let text = "CCCCC\nCWWWC\nCCCTC\nCCCCC\n";
    for (start, goal) in [
        (Coord::new(0, 0), Coord::new(3, 2)),
        (Coord::new(4, 3), Coord::new(0, 0)),
        (Coord::new(2, 1), Coord::new(2, 3)),
        (Coord::new(0, 0), Coord::new(5, 1)),
    ] {
        let first = walk(Grid::parse(text).unwrap(), start, goal, 40);
        for _ in 0..5 {
            assert_eq!(walk(Grid::parse(text).unwrap(), start, goal, 40), first);
        }
    }
}

#[test]
fn every_goal_in_the_grid_is_reached_step_by_step() {
    let (w, h) = (4i32, 3i32);
    for sy in 0..h {
        for sx in 0..w {
            for gy in 0..h {
                for gx in 0..w {
                    let start = Coord::new(sx, sy);
                    let goal = Coord::new(gx, gy);
                    let distance = manhattan_distance(&start, &goal);
                    let (path, state, turns) = walk(Grid::new(4, 3), start, goal, 100);
                    assert_eq!(state, EnvironmentState::END);
                    assert_eq!(turns as u64, distance.max(1));
                    assert!(turns <= 12);
                    assert_eq!(path.len() as u32, turns + 1);
                    assert_eq!(path[path.len() - 1], goal);
                    if start != goal {
                        for (n, at) in path.iter().enumerate() {
                            assert_eq!(manhattan_distance(at, &goal), distance - n as u64);
                        }
                    }
                }
            }
        }
    }
}

#[test]
fn distance_never_exceeds_the_shortest_walk() {
    // Breadth first over the cells of the grid gives the shortest walks.
    let grid = Grid::new(5, 4);
    for sy in 0..4 {
        for sx in 0..5 {
            let start = Coord::new(sx, sy);
            let mut steps = vec![vec![u64::MAX; 5]; 4];
            steps[sy as usize][sx as usize] = 0;
            let mut queue = vec![start];
            let mut head = 0;
            while head < queue.len() {
                let c = queue[head];
                head += 1;
                for n in grid.get_neighbors(&c).unwrap() {
                    let p = n.position;
                    if steps[p.y as usize][p.x as usize] == u64::MAX {
                        steps[p.y as usize][p.x as usize] = steps[c.y as usize][c.x as usize] + 1;
                        queue.push(p);
                    }
                }
            }
            for gy in 0..4 {
                for gx in 0..5 {
                    let shortest = steps[gy as usize][gx as usize];
                    assert!(manhattan_distance(&start, &Coord::new(gx, gy)) <= shortest);
                }
            }
        }
    }
}

#[test]
fn robot_outside_the_grid_is_stuck_at_once() {
    let mut env = SimulationEnvironment::new(Grid::new(3, 3), Coord::new(-1, 0), Coord::new(2, 2));
    for n in 1..8 {
        env.run();
        assert!(env.is_stuck());
        assert_eq!(env.robot_position(), Coord::new(-1, 0));
        assert_eq!(env.get_state(), (EnvironmentState::RUN, n));
    }
}

#[test]
fn stuck_robot_stays_stuck() {
    let mut env = SimulationEnvironment::new(Grid::new(3, 3), Coord::new(0, 1), Coord::new(3, 1));
    let mut ticks = 0;
    while !env.is_stuck() {
        env.run();
        ticks += 1;
        assert!(ticks < 50);
        assert_ne!(env.get_state().0, EnvironmentState::END);
    }
    let at = env.robot_position();
    assert_ne!(at, env.goal_position());
    for _ in 0..10 {
        env.run();
        ticks += 1;
        assert!(env.is_stuck());
        assert_eq!(env.robot_position(), at);
        assert_eq!(env.get_state(), (EnvironmentState::RUN, ticks));
    }
}

#[test]
fn advice_moves_the_robot_even_off_its_track() {
    // With the goal below the grid the search loses the robot: after the
    // tick without advice the robot follows advice given for another cell.
    let (path, state, turns) = walk(Grid::new(2, 3), Coord::new(0, 0), Coord::new(1, 3), 50);
    assert_eq!(
        path,
        vec![
            Coord::new(0, 0),
            Coord::new(1, 0),
            Coord::new(1, 1),
            Coord::new(1, 2),
            Coord::new(1, 2),
            Coord::new(1, 3),
        ]
    );
    assert_eq!(state, EnvironmentState::END);
    assert_eq!(turns, 5);
}

#[test]
fn simulation_is_drawn_with_the_robot() {
    let grid = Grid::parse("CWT\nCCC").unwrap();
    let mut env = SimulationEnvironment::new(grid, Coord::new(0, 1), Coord::new(2, 0));
    assert_eq!(env.to_string(), "CWT\nRCC\n");
    env.run();
    assert_eq!(env.robot_position(), Coord::new(1, 1));
    assert_eq!(env.to_string(), "CWT\nCRC\n");
    env.run();
    env.run();
    assert_eq!(env.get_state().0, EnvironmentState::END);
    assert_eq!(env.to_string(), "CWR\nCCC\n");
    assert_eq!(env.get_map().to_string(), "CWT\nCCC\n");
}
