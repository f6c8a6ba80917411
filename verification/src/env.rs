use crate::agent::{pointees, Action, Agent, Coord, Noise, Strategy};
use crate::rules::{
    census, holders, lemma_scores_never_fall, payoff, peaks, shows, top_score, Draws, State,
};
use crate::topology::{
    cell_index, coord_at, hop, in_grid, lemma_index_round_trip, lemma_neighbors, neighbors,
};
use linking::{draws_of, lemma_step};
use vstd::prelude::*;

mod linking;
mod passes;

verus! {

/// Why a simulation could not be set up.
#[derive(Clone, Copy, Eq, PartialEq, Debug, Structural)]
pub enum ConfigError {
    /// The grid has no rows or no columns.
    EmptyGrid,
    /// The noise is no probability: its denominator is zero, or its
    /// numerator is above its denominator.
    NoiseOutOfRange,
    /// The eight encounters of every cell cannot be counted in a `usize`.
    GridTooLarge,
    /// The agent made for some cell names another coordinate as its own.
    MisplacedAgent,
}

/// The first reason, if any, for which a grid of this size and noise is
/// refused.
pub open spec fn config_defect(num_row: usize, num_col: usize, noise: Noise) -> Option<
    ConfigError,
> {
    if num_row == 0 || num_col == 0 {
        Some(ConfigError::EmptyGrid)
    } else if !noise.in_range() {
        Some(ConfigError::NoiseOutOfRange)
    } else if 8 * (num_row * num_col) > usize::MAX {
        Some(ConfigError::GridTooLarge)
    } else {
        None
    }
}

/// `made` is what `f` returned for cell `i`: for the agent of that cell and
/// the agents around it.
spec fn visited<T, F: Fn(&Agent, Vec<&Agent>) -> T>(state: State, f: F, i: int, made: T) -> bool {
    exists|around: Vec<&Agent>|
        pointees(around@) == state.rivals(coord_at(state.cols, i)) && #[trigger] f.ensures(
            (&state.cells[i], around),
            made,
        )
}

/// What one step leaves behind for an onlooker.
#[derive(Debug, Clone)]
pub struct Metric {
    /// For each strategy that some agent holds, in canonical order, the
    /// number of agents that hold it.
    pub strategies: Vec<(Strategy, usize)>,
    /// For each such strategy, the greatest score among its holders.
    pub max_score: Vec<(Strategy, u64)>,
    /// How many of the step's decisions, taken before noise, were `Coop`.
    pub coop_actions: usize,
    /// The strategies of the grid, row by row.
    pub snapshot: Vec<Vec<Strategy>>,
}

/// For each strategy, the number of its holders and the greatest score
/// among them.
struct Tally {
    deflect: (usize, u64),
    tic_toc: (usize, u64),
    coop: (usize, u64),
    random: (usize, u64),
}

/// The tally of one strategy, with one more holder of score `score`.
fn raised(tally: (usize, u64), score: u64) -> (next: (usize, u64))
    requires
        tally.0 < usize::MAX,
    ensures
        next.0 == tally.0 + 1,
        next.1 == if score > tally.1 {
            score
        } else {
            tally.1
        },
{
    (
        tally.0 + 1,
        if score > tally.1 {
            score
        } else {
            tally.1
        },
    )
}

/// The simulation engine: a grid of agents that play their neighbours.
pub struct Environment {
    num_row: usize,
    num_col: usize,
    noise: Noise,
    grid: Vec<Agent>,
}

impl View for Environment {
    type V = State;

    closed spec fn view(&self) -> State {
        State { rows: self.num_row, cols: self.num_col, noise: self.noise, cells: self.grid@ }
    }
}

impl Environment {
    /// The state is well formed, and the encounters of one step can be
    /// counted.
    pub open spec fn wf(&self) -> bool {
        &&& self@.wf()
        &&& 8 * self@.cells.len() <= usize::MAX
    }

    /// Every agent has room left in its score for the eight encounters of
    /// one step.
    pub open spec fn has_headroom(&self) -> bool {
        forall|i: int|
            0 <= i < self@.cells.len() ==> (#[trigger] self@.cells[i]).score <= u64::MAX - 32
    }

    /// Sets up a grid whose agents hold `Deflect` or `TicToc`, drawn at
    /// random for each cell.
    pub fn new(num_row: usize, num_col: usize, noise: Noise) -> (made: Result<
        Environment,
        ConfigError,
    >)
        ensures
            match made {
                Ok(env) => {
                    &&& config_defect(num_row, num_col, noise) is None
                    &&& env.wf()
                    &&& env@.rows == num_row
                    &&& env@.cols == num_col
                    &&& env@.noise == noise
                    &&& forall|i: int|
                        #![trigger env@.cells[i]]
                        0 <= i < env@.cells.len() ==> {
                            &&& env@.cells[i].score == 0
                            &&& env@.cells[i].history@ == Map::<Coord, Seq<Action>>::empty()
                            &&& (env@.cells[i].strategy == Strategy::Deflect
                                || env@.cells[i].strategy == Strategy::TicToc)
                        }
                },
                Err(e) => config_defect(num_row, num_col, noise) == Some(e),
            },
    {
        let mut strategies: Vec<Strategy> = Vec::new();
        strategies.push(Strategy::Deflect);
        strategies.push(Strategy::TicToc);
        let agent_fn = |c: Coord| -> (agent: Agent)
            ensures
                agent.coord == c,
                agent.score == 0,
                agent.history@ == Map::<Coord, Seq<Action>>::empty(),
                agent.strategy == Strategy::Deflect || agent.strategy == Strategy::TicToc,
            { Agent::random(c, &strategies) };
        Environment::new_with_agent_func(num_row, num_col, noise, agent_fn)
    }

    /// Sets up a grid whose agents `agent_fn` makes, one call for each
    /// coordinate in row-major order. The agent made for a coordinate has
    /// to name that coordinate as its own.
    pub fn new_with_agent_func<F>(
        num_row: usize,
        num_col: usize,
        noise: Noise,
        agent_fn: F,
    ) -> (made: Result<Environment, ConfigError>) where F: FnMut(Coord) -> Agent
        requires
            forall|c: Coord| in_grid(num_row, num_col, c) ==> agent_fn.requires((c,)),
        ensures
            match made {
                Ok(env) => {
                    &&& config_defect(num_row, num_col, noise) is None
                    &&& env.wf()
                    &&& env@.rows == num_row
                    &&& env@.cols == num_col
                    &&& env@.noise == noise
                    &&& forall|i: int|
                        #![trigger env@.cells[i]]
                        0 <= i < env@.cells.len() ==> agent_fn.ensures(
                            (coord_at(num_col, i),),
                            env@.cells[i],
                        )
                },
                Err(e) => match config_defect(num_row, num_col, noise) {
                    Some(defect) => e == defect,
                    None => {
                        &&& e == ConfigError::MisplacedAgent
                        &&& exists|c: Coord, agent: Agent|
                            #![trigger agent_fn.ensures((c,), agent)]
                            in_grid(num_row, num_col, c) && agent_fn.ensures((c,), agent)
                                && agent.coord != c
                    },
                },
            },
    {
        let mut make = agent_fn;
        if num_row == 0 || num_col == 0 {
            return Err(ConfigError::EmptyGrid);
        }
        if !noise.is_valid() {
            return Err(ConfigError::NoiseOutOfRange);
        }
        let cells = match num_row.checked_mul(num_col) {
            Some(cells) => cells,
            None => {
                return Err(ConfigError::GridTooLarge);
            },
        };
        if cells.checked_mul(8).is_none() {
            return Err(ConfigError::GridTooLarge);
        }
        let mut grid: Vec<Agent> = Vec::new();
        let mut i: usize = 0;
        while i < num_row
            invariant
                make == agent_fn,
                config_defect(num_row, num_col, noise) is None,
                i <= num_row,
                num_col > 0,
                num_row * num_col <= usize::MAX,
                grid@.len() == i * num_col,
                forall|c: Coord| in_grid(num_row, num_col, c) ==> agent_fn.requires((c,)),
                forall|k: int|
                    #![trigger grid@[k]]
                    0 <= k < grid@.len() ==> grid@[k].coord == coord_at(num_col, k)
                        && agent_fn.ensures((coord_at(num_col, k),), grid@[k]),
            decreases num_row - i,
        {
            let mut j: usize = 0;
            while j < num_col
                invariant
                    make == agent_fn,
                    config_defect(num_row, num_col, noise) is None,
                    i < num_row,
                    j <= num_col,
                    num_row * num_col <= usize::MAX,
                    grid@.len() == i * num_col + j,
                    forall|c: Coord| in_grid(num_row, num_col, c) ==> agent_fn.requires((c,)),
                    forall|k: int|
                        #![trigger grid@[k]]
                        0 <= k < grid@.len() ==> grid@[k].coord == coord_at(num_col, k)
                            && agent_fn.ensures((coord_at(num_col, k),), grid@[k]),
                decreases num_col - j,
            {
                proof {
                    lemma_index_round_trip(num_row, num_col, (i, j));
                    assert(i * num_col == num_col * i) by (nonlinear_arith);
                    assert(in_grid(num_row, num_col, (i, j)));
                }
                let agent = make((i, j));
                if agent.coord.0 != i || agent.coord.1 != j {
                    assert(agent_fn.ensures(((i, j),), agent) && agent.coord != (i, j));
                    return Err(ConfigError::MisplacedAgent);
                }
                grid.push(agent);
                j += 1;
            }
            proof {
                assert(i * num_col + num_col == (i + 1) * num_col) by (nonlinear_arith);
            }
            i += 1;
        }
        let env = Environment { num_row, num_col, noise, grid };
        proof {
            assert forall|k: int| 0 <= k < env@.cells.len() implies agent_fn.ensures(
                (coord_at(num_col, k),),
                #[trigger] env@.cells[k],
            ) by {
                assert(env@.cells[k] == grid@[k]);
            }
        }
        Ok(env)
    }

    /// Number of rows of the grid.
    pub fn num_row(&self) -> (rows: usize)
        ensures
            rows == self@.rows,
    {
        self.num_row
    }

    /// Number of columns of the grid.
    pub fn num_col(&self) -> (cols: usize)
        ensures
            cols == self@.cols,
    {
        self.num_col
    }

    /// The flip probability that every encounter is played under.
    pub fn noise(&self) -> (noise: Noise)
        ensures
            noise == self@.noise,
    {
        self.noise
    }

    /// The agent in the cell at `coord`, if the grid has such a cell.
    pub fn agent(&self, coord: Coord) -> (found: Option<&Agent>)
        requires
            self.wf(),
        ensures
            match found {
                Some(agent) => in_grid(self@.rows, self@.cols, coord) && *agent == self@.at(coord),
                None => !in_grid(self@.rows, self@.cols, coord),
            },
    {
        if coord.0 < self.num_row && coord.1 < self.num_col {
            let at = self.to_vec_index(coord);
            Some(&self.grid[at])
        } else {
            None
        }
    }

    /// Whether every agent has room left in its score for one more step.
    pub fn has_room(&self) -> (ok: bool)
        ensures
            ok == self.has_headroom(),
    {
        let mut i: usize = 0;
        while i < self.grid.len()
            invariant
                i <= self.grid@.len(),
                forall|j: int| 0 <= j < i ==> (#[trigger] self@.cells[j]).score <= u64::MAX - 32,
            decreases self.grid@.len() - i,
        {
            if self.grid[i].score > u64::MAX - 32 {
                return false;
            }
            i += 1;
        }
        true
    }

    /// The payoff table.
    pub fn score(a: Action, b: Action) -> (points: u64)
        ensures
            points == payoff(a, b),
    {
        match (a, b) {
            (Action::Coop, Action::Coop) => 3,
            (Action::Deflect, Action::Coop) => 4,
            _ => 0,
        }
    }

    /// Row-major position of the cell at `coord`.
    pub fn to_vec_index(&self, coord: Coord) -> (index: usize)
        requires
            self.wf(),
            in_grid(self@.rows, self@.cols, coord),
        ensures
            index == cell_index(self@.cols, coord),
            index < self@.cells.len(),
    {
        proof {
            lemma_index_round_trip(self.num_row, self.num_col, coord);
        }
        self.num_col * coord.0 + coord.1
    }

    /// Appends to `list` the cell `dr` rows and `dc` columns away from
    /// `coord`, if the grid has such a cell.
    fn push_hop(&self, list: &mut Vec<Coord>, coord: Coord, dr: isize, dc: isize)
        ensures
            final(list)@ == old(list)@ + hop(self@.rows, self@.cols, coord, dr as int, dc as int),
    {
        let ghost before = list@;
        match (coord.0.checked_add_signed(dr), coord.1.checked_add_signed(dc)) {
            (Some(x), Some(y)) => {
                if x < self.num_row && y < self.num_col {
                    list.push((x, y));
                    assert(list@ =~= before + seq![(x, y)]);
                }
            },
            _ => {},
        }
        assert(list@ =~= before + hop(self@.rows, self@.cols, coord, dr as int, dc as int));
    }

    /// The cells of the grid around `coord`, row by row.
    pub fn neighbor_coord(&self, coord: Coord) -> (result: Vec<Coord>)
        ensures
            result@ == neighbors(self@.rows, self@.cols, coord),
    {
        let mut result: Vec<Coord> = Vec::new();
        self.push_hop(&mut result, coord, -1, -1);
        self.push_hop(&mut result, coord, -1, 0);
        self.push_hop(&mut result, coord, -1, 1);
        self.push_hop(&mut result, coord, 0, -1);
        self.push_hop(&mut result, coord, 0, 1);
        self.push_hop(&mut result, coord, 1, -1);
        self.push_hop(&mut result, coord, 1, 0);
        self.push_hop(&mut result, coord, 1, 1);
        proof {
            reveal(neighbors);
        }
        assert(result@ =~= neighbors(self@.rows, self@.cols, coord));
        result
    }

    /// One step of the simulation: every cell imitates its best neighbour,
    /// then decides on an action toward each neighbour, then meets each
    /// neighbour under noise, books what it saw and adds what it earned.
    /// Each pass works from what the pass before it left, for all cells
    /// alike.
    pub fn step(&mut self) -> (metric: Metric)
        requires
            old(self).wf(),
            old(self).has_headroom(),
        ensures
            final(self).wf(),
            exists|draws: Draws|
                #![trigger old(self)@.steps_to(draws, final(self)@)]
                {
                    &&& draws.obeys(old(self)@.noise)
                    &&& old(self)@.steps_to(draws, final(self)@)
                    &&& metric.coop_actions == old(self)@.coop_decisions(draws)
                },
            forall|i: int|
                0 <= i < old(self)@.cells.len() ==> old(self)@.cells[i].score <= (
                #[trigger] final(self)@.cells[i]).score <= old(self)@.cells[i].score + 32,
            metric.strategies@ == census(final(self)@.cells),
            metric.max_score@ == peaks(final(self)@.cells),
            shows(metric.snapshot@, final(self)@),
    {
        let ghost pre = self@;
        self.adapt_pass();
        let ghost mid = self@;
        let table = self.decide_pass();
        let flips = self.apply_pass(&table);
        proof {
            assert forall|i: int| 0 <= i < table@.len() implies (#[trigger] table@[i])@.len()
                <= 8 by {
                lemma_neighbors(mid.rows, mid.cols, coord_at(mid.cols, i));
            }
        }
        let coop_actions = Environment::count_coops(&table);
        let metric = self.measure(coop_actions);
        proof {
            let draws = draws_of(pre, table@, flips@.0, flips@.1);
            lemma_step(pre, mid, self@, table@, flips@.0, flips@.1);
            assert(pre.steps_to(draws, self@));
            assert forall|i: int| 0 <= i < pre.cells.len() implies pre.cells[i].score <= (
            #[trigger] self@.cells[i]).score <= pre.cells[i].score + 32 by {
                lemma_scores_never_fall(pre, draws, self@, i);
            }
        }
        metric
    }

    /// The agents around `coord`, in the order of `neighbor_coord`.
    fn neighbor_agents(&self, coord: Coord) -> (around: Vec<&Agent>)
        requires
            self.wf(),
        ensures
            pointees(around@) == self@.rivals(coord),
    {
        let hood = self.neighbor_coord(coord);
        proof {
            lemma_neighbors(self.num_row, self.num_col, coord);
        }
        let mut around: Vec<&Agent> = Vec::new();
        let mut k: usize = 0;
        while k < hood.len()
            invariant
                self.wf(),
                hood@ == self@.hood(coord),
                forall|n: Coord| hood@.contains(n) ==> in_grid(self@.rows, self@.cols, n),
                k <= hood@.len(),
                around@.len() == k,
                forall|j: int| 0 <= j < k ==> *around@[j] == self@.at(hood@[j]),
            decreases hood@.len() - k,
        {
            assert(hood@.contains(hood@[k as int]));
            let at = self.to_vec_index(hood[k]);
            around.push(&self.grid[at]);
            k += 1;
        }
        assert(pointees(around@) =~= self@.rivals(coord));
        around
    }

    /// Visits every cell once, in row-major order, and hands `f` the cell's
    /// agent together with the agents around it. The grid stays as it is
    /// while the cells are visited, so every call of `f` sees the same
    /// grid; what the calls return comes back cell by cell.
    fn for_each_cell<T, F>(&self, f: F) -> (out: Vec<T>) where F: Fn(&Agent, Vec<&Agent>) -> T
        requires
            self.wf(),
            forall|i: int, around: Vec<&Agent>|
                0 <= i < self@.cells.len() && pointees(around@) == self@.rivals(
                    coord_at(self@.cols, i),
                ) ==> #[trigger] f.requires((&self@.cells[i], around)),
        ensures
            out@.len() == self@.cells.len(),
            forall|i: int| 0 <= i < self@.cells.len() ==> visited(self@, f, i, #[trigger] out@[i]),
    {
        let mut out: Vec<T> = Vec::new();
        let mut i: usize = 0;
        while i < self.grid.len()
            invariant
                self.wf(),
                forall|j: int, around: Vec<&Agent>|
                    0 <= j < self@.cells.len() && pointees(around@) == self@.rivals(
                        coord_at(self@.cols, j),
                    ) ==> #[trigger] f.requires((&self@.cells[j], around)),
                i <= self@.cells.len(),
                out@.len() == i,
                forall|j: int| 0 <= j < i ==> visited(self@, f, j, #[trigger] out@[j]),
            decreases self@.cells.len() - i,
        {
            let around = self.neighbor_agents(self.grid[i].coord);
            let ghost handed = around;
            let made = f(&self.grid[i], around);
            out.push(made);
            proof {
                assert(pointees(handed@) == self@.rivals(coord_at(self@.cols, i as int))
                    && f.ensures((&self@.cells[i as int], handed), out@[i as int]));
            }
            i += 1;
        }
        out
    }

    /// For each strategy, how many agents hold it and the greatest score
    /// among them, gathered in one pass over the grid.
    fn tally(&self) -> (found: Tally)
        ensures
            found.deflect.0 == holders(self@.cells, Strategy::Deflect),
            found.deflect.1 == top_score(self@.cells, Strategy::Deflect),
            found.tic_toc.0 == holders(self@.cells, Strategy::TicToc),
            found.tic_toc.1 == top_score(self@.cells, Strategy::TicToc),
            found.coop.0 == holders(self@.cells, Strategy::Coop),
            found.coop.1 == top_score(self@.cells, Strategy::Coop),
            found.random.0 == holders(self@.cells, Strategy::Random),
            found.random.1 == top_score(self@.cells, Strategy::Random),
    {
        let mut found = Tally { deflect: (0, 0), tic_toc: (0, 0), coop: (0, 0), random: (0, 0) };
        let mut i: usize = 0;
        while i < self.grid.len()
            invariant
                i <= self.grid@.len(),
                found.deflect.0 == holders(self@.cells.take(i as int), Strategy::Deflect),
                found.deflect.1 == top_score(self@.cells.take(i as int), Strategy::Deflect),
                found.tic_toc.0 == holders(self@.cells.take(i as int), Strategy::TicToc),
                found.tic_toc.1 == top_score(self@.cells.take(i as int), Strategy::TicToc),
                found.coop.0 == holders(self@.cells.take(i as int), Strategy::Coop),
                found.coop.1 == top_score(self@.cells.take(i as int), Strategy::Coop),
                found.random.0 == holders(self@.cells.take(i as int), Strategy::Random),
                found.random.1 == top_score(self@.cells.take(i as int), Strategy::Random),
                found.deflect.0 <= i,
                found.tic_toc.0 <= i,
                found.coop.0 <= i,
                found.random.0 <= i,
            decreases self.grid@.len() - i,
        {
            assert(self@.cells.take(i + 1).drop_last() =~= self@.cells.take(i as int));
            let score = self.grid[i].score;
            match self.grid[i].strategy {
                Strategy::Deflect => {
                    found.deflect = raised(found.deflect, score);
                },
                Strategy::TicToc => {
                    found.tic_toc = raised(found.tic_toc, score);
                },
                Strategy::Coop => {
                    found.coop = raised(found.coop, score);
                },
                Strategy::Random => {
                    found.random = raised(found.random, score);
                },
            }
            i += 1;
        }
        assert(self@.cells.take(i as int) =~= self@.cells);
        found
    }

    /// The strategies of the grid, row by row.
    fn snapshot(&self) -> (rows: Vec<Vec<Strategy>>)
        requires
            self.wf(),
        ensures
            shows(rows@, self@),
    {
        let mut rows: Vec<Vec<Strategy>> = Vec::new();
        let mut r: usize = 0;
        while r < self.num_row
            invariant
                self.wf(),
                r <= self@.rows,
                rows@.len() == r,
                forall|x: int| 0 <= x < r ==> (#[trigger] rows@[x])@.len() == self@.cols,
                forall|x: int, y: int|
                    0 <= x < r && 0 <= y < self@.cols ==> #[trigger] rows@[x]@[y] == self@.at(
                        (x as usize, y as usize),
                    ).strategy,
            decreases self@.rows - r,
        {
            let mut row: Vec<Strategy> = Vec::new();
            let mut c: usize = 0;
            while c < self.num_col
                invariant
                    self.wf(),
                    r < self@.rows,
                    c <= self@.cols,
                    row@.len() == c,
                    forall|y: int|
                        0 <= y < c ==> #[trigger] row@[y] == self@.at(
                            (r, y as usize),
                        ).strategy,
                decreases self@.cols - c,
            {
                let at = self.to_vec_index((r, c));
                row.push(self.grid[at].strategy);
                c += 1;
            }
            rows.push(row);
            r += 1;
        }
        rows
    }

    /// The metric of the grid as it stands, for a step in which
    /// `coop_actions` decisions were `Coop`.
    fn measure(&self, coop_actions: usize) -> (metric: Metric)
        requires
            self.wf(),
        ensures
            metric.strategies@ == census(self@.cells),
            metric.max_score@ == peaks(self@.cells),
            metric.coop_actions == coop_actions,
            shows(metric.snapshot@, self@),
    {
        let mut strategies: Vec<(Strategy, usize)> = Vec::new();
        let mut max_score: Vec<(Strategy, u64)> = Vec::new();
        let found = self.tally();
        if found.deflect.0 > 0 {
            strategies.push((Strategy::Deflect, found.deflect.0));
            max_score.push((Strategy::Deflect, found.deflect.1));
        }
        if found.tic_toc.0 > 0 {
            strategies.push((Strategy::TicToc, found.tic_toc.0));
            max_score.push((Strategy::TicToc, found.tic_toc.1));
        }
        if found.coop.0 > 0 {
            strategies.push((Strategy::Coop, found.coop.0));
            max_score.push((Strategy::Coop, found.coop.1));
        }
        if found.random.0 > 0 {
            strategies.push((Strategy::Random, found.random.0));
            max_score.push((Strategy::Random, found.random.1));
        }
        assert(strategies@ =~= census(self@.cells));
        assert(max_score@ =~= peaks(self@.cells));
        Metric { strategies, max_score, coop_actions, snapshot: self.snapshot() }
    }
}

} // verus!
