use vstd::prelude::*;
use vstd::string::*;
use std::collections::HashMap;
use crate::action::Direction;
use crate::coord::Coord;
use crate::format::render;
use crate::grid::{Grid, GridView};
use crate::search::{AStar, SearchView};

verus! {

/// Where a simulation stands: not yet ticked, ticked without arriving, or
/// arrived.
#[allow(non_camel_case_types)]
#[derive(Clone, Copy, PartialEq, Eq, Structural, Debug)]
pub enum EnvironmentState {
    START,
    RUN,
    END,
}

/// What moves over the grid.
pub trait Agent {
    /// The text drawn in place of the tile that the agent stands on.
    fn get_symbol(&self) -> String;

    /// Where the agent stands.
    fn position(&self) -> Coord;
}

/// The one agent of a simulation.
#[derive(Clone, Copy, PartialEq, Eq, Structural, Debug)]
pub struct Robot {
    pub position: Coord,
}

/// The robot's symbol.
pub open spec fn robot_symbol() -> Seq<char> {
    seq!['R']
}

impl Agent for Robot {
    fn get_symbol(&self) -> (symbol: String)
        ensures
            symbol@ == robot_symbol(),
    {
        proof {
            reveal_strlit("R");
        }
        let symbol = String::from_str("R");
        assert(symbol@ =~= robot_symbol());
        symbol
    }

    fn position(&self) -> (at: Coord)
        ensures
            at == self.position,
    {
        self.position
    }
}

/// A world that runs in ticks, as a display or a driver sees it.
pub trait Environment {
    /// The kind of agent that lives in it.
    type A: Agent;

    /// The ticks run so far.
    spec fn turns(&self) -> nat;

    /// Runs one tick.
    fn run(&mut self)
        requires
            old(self).turns() < u32::MAX,
    ;

    /// The grid.
    fn get_map(&self) -> &Grid;

    /// The agents.
    fn get_agents(&self) -> Vec<&Self::A>;

    /// Where `agent` is heading.
    fn get_goal(&self, agent: &Self::A) -> Option<Coord>;

    /// The state and the number of ticks run.
    fn get_state(&self) -> (state: (EnvironmentState, u32))
        ensures
            state.1 == self.turns(),
    ;

    /// Whatever else there is to say.
    fn get_environment_info(&self) -> HashMap<String, String>;
}

/// A simulation as the contracts see it.
pub struct SimulationView {
    pub grid: GridView,
    pub agent: Coord,
    pub goal: Coord,
    pub search: SearchView,
    pub state: EnvironmentState,
    pub turns: nat,
}

impl SimulationView {
    /// The simulation before its first tick.
    pub open spec fn init(grid: GridView, start: Coord, goal: Coord) -> SimulationView {
        SimulationView {
            grid,
            agent: start,
            goal,
            search: SearchView::init(start),
            state: EnvironmentState::START,
            turns: 0,
        }
    }

    /// Where the agent stands after following `advice`.
    pub open spec fn moved(at: Coord, advice: Option<Direction>) -> Coord {
        match advice {
            Some(d) => at.plus(d.delta()),
            None => at,
        }
    }

    /// The simulation one tick later. A simulation that has arrived only
    /// counts the tick. Any other lets the search take one step, moves the
    /// agent by one cell where the search advises a direction, and has
    /// arrived if the agent then stands on the goal.
    pub open spec fn tick(self) -> SimulationView {
        if self.state == EnvironmentState::END {
            SimulationView { turns: self.turns + 1, ..self }
        } else {
            let (search, advice) = self.search.step(self.grid, self.goal);
            let agent = Self::moved(self.agent, advice);
            SimulationView {
                grid: self.grid,
                agent,
                goal: self.goal,
                search,
                state: if agent == self.goal {
                    EnvironmentState::END
                } else {
                    EnvironmentState::RUN
                },
                turns: self.turns + 1,
            }
        }
    }

    /// The simulation `n` ticks later.
    pub open spec fn after(self, n: nat) -> SimulationView
        decreases n,
    {
        if n == 0 {
            self
        } else {
            self.after((n - 1) as nat).tick()
        }
    }

    /// The simulation as text: the grid with the robot drawn over its tile.
    pub open spec fn text(self) -> Seq<char> {
        self.grid.text(Some((self.agent, robot_symbol())))
    }
}

/// One robot on a grid, on its way to a goal.
pub struct SimulationEnvironment {
    map: Grid,
    robot: Robot,
    goal_position: Coord,
    astar: AStar,
    state: EnvironmentState,
    turn_count: u32,
}

impl View for SimulationEnvironment {
    type V = SimulationView;

    closed spec fn view(&self) -> SimulationView {
        SimulationView {
            grid: self.map@,
            agent: self.robot.position,
            goal: self.goal_position,
            search: self.astar@,
            state: self.state,
            turns: self.turn_count as nat,
        }
    }
}

impl SimulationEnvironment {
    /// A simulation on `map` with the robot at `robot_position`, heading for
    /// `goal_position`.
    pub fn new(map: Grid, robot_position: Coord, goal_position: Coord) -> (env: Self)
        ensures
            env@ == SimulationView::init(map@, robot_position, goal_position),
    {
        SimulationEnvironment {
            map,
            robot: Robot { position: robot_position },
            goal_position,
            astar: AStar::new(robot_position),
            state: EnvironmentState::START,
            turn_count: 0,
        }
    }

    /// Where the robot stands.
    pub fn robot_position(&self) -> (at: Coord)
        ensures
            at == self@.agent,
    {
        self.robot.position
    }

    /// Where the robot is heading.
    pub fn goal_position(&self) -> (at: Coord)
        ensures
            at == self@.goal,
    {
        self.goal_position
    }

    /// Whether the search has nothing left to expand: the robot will get no
    /// more advice and stays where it is.
    pub fn is_stuck(&self) -> (b: bool)
        ensures
            b == self@.search.exhausted(),
    {
        self.astar.is_exhausted()
    }

    /// The simulation as text: the grid with the robot drawn over its tile.
    pub fn to_string(&self) -> (s: String)
        ensures
            s@ == self@.text(),
    {
        let symbol = self.robot.get_symbol();
        render(&self.map, Some((self.robot.position, symbol.as_str())))
    }
}

impl Environment for SimulationEnvironment {
    type A = Robot;

    open spec fn turns(&self) -> nat {
        self@.turns
    }

    /// Runs one tick, as `SimulationView::tick` describes it.
    fn run(&mut self)
        ensures
            final(self)@ == old(self)@.tick(),
    {
        self.turn_count = self.turn_count + 1;
        if self.state == EnvironmentState::END {
            return ;
        }
        match self.astar.run(&self.map, &self.goal_position) {
            Some(direction) => {
                self.robot.position = self.robot.position.offset(direction.to_ivec2());
            },
            None => {},
        }
        self.state = if self.robot.position == self.goal_position {
            EnvironmentState::END
        } else {
            EnvironmentState::RUN
        };
    }

    fn get_map(&self) -> (map: &Grid)
        ensures
            map@ == self@.grid,
    {
        &self.map
    }

    fn get_agents(&self) -> (agents: Vec<&Robot>)
        ensures
            agents@.len() == 1,
            agents@[0].position == self@.agent,
    {
        let mut agents: Vec<&Robot> = Vec::new();
        agents.push(&self.robot);
        agents
    }

    fn get_goal(&self, agent: &Robot) -> (goal: Option<Coord>)
        ensures
            goal == Some(self@.goal),
    {
        Some(self.goal_position)
    }

    fn get_state(&self) -> (state: (EnvironmentState, u32))
        ensures
            state.0 == self@.state,
            state.1 == self@.turns,
    {
        (self.state, self.turn_count)
    }

    fn get_environment_info(&self) -> (info: HashMap<String, String>)
        ensures
            info@ == Map::<String, String>::empty(),
    {
        HashMap::new()
    }
}

} // verus!
