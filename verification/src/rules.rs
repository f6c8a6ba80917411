use crate::agent::{imitate, Action, Agent, Coord, Noise, Strategy};
use crate::topology::{cell_index, coord_at, lemma_coord_round_trip, lemma_neighbors, neighbors};
use vstd::prelude::*;

verus! {

/// The payoff table: what the side that played `mine` earns against
/// `theirs`.
pub open spec fn payoff(mine: Action, theirs: Action) -> u64 {
    match (mine, theirs) {
        (Action::Coop, Action::Coop) => 3,
        (Action::Deflect, Action::Coop) => 4,
        _ => 0,
    }
}

/// The payoffs of a series of encounters, added up: in the `k`-th one this
/// side played `mine[k]` and the other side `theirs[k]`.
pub open spec fn total_payoff(mine: Seq<Action>, theirs: Seq<Action>) -> int
    decreases mine.len(),
{
    if mine.len() == 0 {
        0
    } else {
        total_payoff(mine.drop_last(), theirs.drop_last()) + payoff(mine.last(), theirs.last())
    }
}

/// How many of the actions are `Coop`.
pub open spec fn coops(actions: Seq<Action>) -> int
    decreases actions.len(),
{
    if actions.len() == 0 {
        0
    } else {
        coops(actions.drop_last()) + if actions.last() == Action::Coop {
            1int
        } else {
            0int
        }
    }
}

/// Everything that chance settles in one step. Each entry belongs to an
/// ordered pair of a cell and one of its neighbours.
pub struct Draws {
    /// The action that the cell's fair draw toward the neighbour shows;
    /// only a cell that holds `Random` looks at it.
    pub coin: spec_fn(Coord, Coord) -> Action,
    /// Whether noise flips the cell's own action when the cell's payoff
    /// from the neighbour is worked out.
    pub own_flip: spec_fn(Coord, Coord) -> bool,
    /// Whether noise flips the neighbour's action in that same encounter.
    pub other_flip: spec_fn(Coord, Coord) -> bool,
}

impl Draws {
    /// The flips are ones that can come out under `noise`: none at
    /// probability 0, all at probability 1.
    pub open spec fn obeys(self, noise: Noise) -> bool {
        &&& forall|c: Coord, n: Coord| noise.allows(#[trigger] (self.own_flip)(c, n))
        &&& forall|c: Coord, n: Coord| noise.allows(#[trigger] (self.other_flip)(c, n))
    }
}

/// The simulation as a mathematical value: the grid's size, the noise, and
/// the agents in row-major order.
pub struct State {
    pub rows: usize,
    pub cols: usize,
    pub noise: Noise,
    pub cells: Seq<Agent>,
}

impl State {
    /// The grid is not empty, the noise is a probability, and each cell
    /// holds the agent of its own coordinate.
    pub open spec fn wf(self) -> bool {
        &&& self.rows > 0
        &&& self.cols > 0
        &&& self.noise.in_range()
        &&& self.cells.len() == self.rows * self.cols
        &&& forall|i: int|
            0 <= i < self.cells.len() ==> (#[trigger] self.cells[i]).coord == coord_at(
                self.cols,
                i,
            )
    }

    /// The agent in the cell at `coord`.
    pub open spec fn at(self, coord: Coord) -> Agent {
        self.cells[cell_index(self.cols, coord)]
    }

    /// The coordinates around `coord`.
    pub open spec fn hood(self, coord: Coord) -> Seq<Coord> {
        neighbors(self.rows, self.cols, coord)
    }

    /// The agents around `coord`, in the order of `hood`.
    pub open spec fn rivals(self, coord: Coord) -> Seq<Agent> {
        self.hood(coord).map_values(|n: Coord| self.at(n))
    }

    /// The strategy that the cell at `coord` holds after imitation, worked
    /// out from this state alone.
    pub open spec fn adapted(self, coord: Coord) -> Strategy {
        imitate(self.at(coord).strategy, self.at(coord).score, self.rivals(coord))
    }

    /// The action that the cell at `from` decides on toward `to`: by its
    /// strategy after imitation, from what it had seen of `to` before the
    /// step.
    pub open spec fn decided(self, draws: Draws, from: Coord, to: Coord) -> Action {
        self.adapted(from).choice(self.at(from).history.past(to), (draws.coin)(from, to))
    }

    /// The decisions of the cell at `coord` toward each of its neighbours.
    pub open spec fn decisions(self, draws: Draws, coord: Coord) -> Seq<Action> {
        self.hood(coord).map_values(|n: Coord| self.decided(draws, coord, n))
    }

    /// The decisions that the neighbours of the cell at `coord` take toward
    /// it, in the order of the neighbours.
    pub open spec fn replies(self, draws: Draws, coord: Coord) -> Seq<Action> {
        self.hood(coord).map_values(|n: Coord| self.decided(draws, n, coord))
    }

    /// What the cell at `coord` plays in its encounter with `n`: its
    /// decision, after noise.
    pub open spec fn own_play(self, draws: Draws, coord: Coord, n: Coord) -> Action {
        self.decided(draws, coord, n).perturbed((draws.own_flip)(coord, n))
    }

    /// What `n` plays in that encounter: its decision toward `coord`, after
    /// a noise draw of its own.
    pub open spec fn other_play(self, draws: Draws, coord: Coord, n: Coord) -> Action {
        self.decided(draws, n, coord).perturbed((draws.other_flip)(coord, n))
    }

    /// What the cell at `coord` earns in the step: its payoffs from the
    /// encounters with all its neighbours.
    pub open spec fn gain(self, draws: Draws, coord: Coord) -> int {
        total_payoff(
            self.hood(coord).map_values(|n: Coord| self.own_play(draws, coord, n)),
            self.hood(coord).map_values(|n: Coord| self.other_play(draws, coord, n)),
        )
    }

    /// What the cell at `coord` has seen after the step: from each
    /// neighbour one action more, from anyone else what it had.
    pub open spec fn next_history(self, draws: Draws, coord: Coord) -> Map<Coord, Seq<Action>> {
        let before = self.at(coord).history;
        Map::new(
            |n: Coord| before@.dom().contains(n) || self.hood(coord).contains(n),
            |n: Coord|
                if self.hood(coord).contains(n) {
                    before.past(n).push(self.other_play(draws, coord, n))
                } else {
                    before@[n]
                },
        )
    }

    /// `next` is this state one step later, with chance settled as `draws`
    /// says: every cell has imitated, met each neighbour once, booked what
    /// it saw and added what it earned, all worked out from this state.
    pub open spec fn steps_to(self, draws: Draws, next: State) -> bool {
        &&& next.rows == self.rows
        &&& next.cols == self.cols
        &&& next.noise == self.noise
        &&& next.cells.len() == self.cells.len()
        &&& forall|i: int|
            #![trigger next.cells[i]]
            0 <= i < self.cells.len() ==> {
                let coord = coord_at(self.cols, i);
                &&& next.cells[i].coord == coord
                &&& next.cells[i].strategy == self.adapted(coord)
                &&& next.cells[i].score == self.cells[i].score + self.gain(draws, coord)
                &&& next.cells[i].history@ == self.next_history(draws, coord)
            }
    }

    /// How many decisions of the first `upto` cells are `Coop`.
    pub open spec fn coops_upto(self, draws: Draws, upto: int) -> int
        decreases upto,
    {
        if upto <= 0 {
            0
        } else {
            self.coops_upto(draws, upto - 1) + coops(
                self.decisions(draws, coord_at(self.cols, upto - 1)),
            )
        }
    }

    /// How many of the step's decisions, over all ordered pairs of a cell
    /// and a neighbour, are `Coop`.
    pub open spec fn coop_decisions(self, draws: Draws) -> int {
        self.coops_upto(draws, self.cells.len() as int)
    }
}

/// How many of the agents hold `strategy`.
pub open spec fn holders(cells: Seq<Agent>, strategy: Strategy) -> int
    decreases cells.len(),
{
    if cells.len() == 0 {
        0
    } else {
        holders(cells.drop_last(), strategy) + if cells.last().strategy == strategy {
            1int
        } else {
            0int
        }
    }
}

/// The greatest score among the agents that hold `strategy`; 0 if none
/// does.
pub open spec fn top_score(cells: Seq<Agent>, strategy: Strategy) -> u64
    decreases cells.len(),
{
    if cells.len() == 0 {
        0
    } else {
        let rest = top_score(cells.drop_last(), strategy);
        if cells.last().strategy == strategy && cells.last().score > rest {
            cells.last().score
        } else {
            rest
        }
    }
}

/// The entry that a per-strategy listing has for `strategy`: one pair if
/// the strategy is present, nothing if it is not.
pub open spec fn listing<V>(present: bool, strategy: Strategy, value: V) -> Seq<(Strategy, V)> {
    if present {
        seq![(strategy, value)]
    } else {
        Seq::empty()
    }
}

/// For each strategy that some agent holds, in canonical order, the number
/// of agents that hold it.
pub open spec fn census(cells: Seq<Agent>) -> Seq<(Strategy, usize)> {
    listing(
        holders(cells, Strategy::Deflect) > 0,
        Strategy::Deflect,
        holders(cells, Strategy::Deflect) as usize,
    ) + listing(
        holders(cells, Strategy::TicToc) > 0,
        Strategy::TicToc,
        holders(cells, Strategy::TicToc) as usize,
    ) + listing(
        holders(cells, Strategy::Coop) > 0,
        Strategy::Coop,
        holders(cells, Strategy::Coop) as usize,
    ) + listing(
        holders(cells, Strategy::Random) > 0,
        Strategy::Random,
        holders(cells, Strategy::Random) as usize,
    )
}

/// For each strategy that some agent holds, in canonical order, the
/// greatest score among the agents that hold it.
pub open spec fn peaks(cells: Seq<Agent>) -> Seq<(Strategy, u64)> {
    listing(
        holders(cells, Strategy::Deflect) > 0,
        Strategy::Deflect,
        top_score(cells, Strategy::Deflect),
    ) + listing(
        holders(cells, Strategy::TicToc) > 0,
        Strategy::TicToc,
        top_score(cells, Strategy::TicToc),
    ) + listing(
        holders(cells, Strategy::Coop) > 0,
        Strategy::Coop,
        top_score(cells, Strategy::Coop),
    ) + listing(
        holders(cells, Strategy::Random) > 0,
        Strategy::Random,
        top_score(cells, Strategy::Random),
    )
}

/// The snapshot holds the grid's strategies, one row of the grid in each
/// of its rows.
pub open spec fn shows(snapshot: Seq<Vec<Strategy>>, state: State) -> bool {
    &&& snapshot.len() == state.rows
    &&& forall|r: int|
        0 <= r < state.rows ==> (#[trigger] snapshot[r])@.len() == state.cols
    &&& forall|r: int, c: int|
        0 <= r < state.rows && 0 <= c < state.cols ==> #[trigger] snapshot[r]@[c] == state.at(
            (r as usize, c as usize),
        ).strategy
}

/// A payoff never exceeds 4, so what a series of encounters earns lies
/// between 0 and four times its length.
pub proof fn lemma_total_payoff_bounds(mine: Seq<Action>, theirs: Seq<Action>)
    ensures
        0 <= total_payoff(mine, theirs) <= 4 * mine.len(),
    decreases mine.len(),
{
    if mine.len() > 0 {
        lemma_total_payoff_bounds(mine.drop_last(), theirs.drop_last());
    }
}

/// Scores never fall: in one step a cell earns at least 0 and at most 4
/// from each of its at most eight neighbours.
pub proof fn lemma_gain_bounds(state: State, draws: Draws, coord: Coord)
    ensures
        0 <= state.gain(draws, coord) <= 4 * state.hood(coord).len(),
        state.gain(draws, coord) <= 32,
{
    lemma_total_payoff_bounds(
        state.hood(coord).map_values(|n: Coord| state.own_play(draws, coord, n)),
        state.hood(coord).map_values(|n: Coord| state.other_play(draws, coord, n)),
    );
    lemma_neighbors(state.rows, state.cols, coord);
}

/// Scores never fall: a step adds to each score at least 0 and at most 4
/// for each neighbour of the cell.
pub proof fn lemma_scores_never_fall(before: State, draws: Draws, after: State, i: int)
    requires
        before.steps_to(draws, after),
        0 <= i < before.cells.len(),
    ensures
        before.cells[i].score <= after.cells[i].score,
        after.cells[i].score <= before.cells[i].score + 4 * before.hood(
            coord_at(before.cols, i),
        ).len(),
        after.cells[i].score <= before.cells[i].score + 32,
{
    lemma_gain_bounds(before, draws, coord_at(before.cols, i));
    assert(after.cells[i].score == before.cells[i].score + before.gain(
        draws,
        coord_at(before.cols, i),
    ));
}

/// Histories only grow, and only at the end: after a step a cell has seen
/// from each neighbour what it had seen before and one action more, and
/// from anyone else exactly what it had seen before.
pub proof fn lemma_histories_grow(before: State, draws: Draws, after: State, i: int, from: Coord)
    requires
        before.wf(),
        before.steps_to(draws, after),
        0 <= i < before.cells.len(),
    ensures
        ({
            let coord = coord_at(before.cols, i);
            let old_past = before.cells[i].history.past(from);
            let new_past = after.cells[i].history.past(from);
            if before.hood(coord).contains(from) {
                new_past == old_past.push(before.decided(draws, from, coord).perturbed(
                    (draws.other_flip)(coord, from),
                ))
            } else {
                new_past == old_past
            }
        }),
{
    let coord = coord_at(before.cols, i);
    lemma_coord_round_trip(before.rows, before.cols, i);
    assert(after.cells[i].history@ == before.next_history(draws, coord));
}

/// Without noise a cell's score grows in one step by exactly the payoffs
/// of the decided actions: its own decision toward each neighbour against
/// that neighbour's decision toward it.
pub proof fn lemma_quiet_step(before: State, draws: Draws, after: State, i: int)
    requires
        before.wf(),
        before.noise.is_never(),
        draws.obeys(before.noise),
        before.steps_to(draws, after),
        0 <= i < before.cells.len(),
    ensures
        after.cells[i].score == before.cells[i].score + total_payoff(
            before.decisions(draws, coord_at(before.cols, i)),
            before.replies(draws, coord_at(before.cols, i)),
        ),
{
    let coord = coord_at(before.cols, i);
    let hood = before.hood(coord);
    assert forall|n: Coord| before.own_play(draws, coord, n) == before.decided(
        draws,
        coord,
        n,
    ) && before.other_play(draws, coord, n) == before.decided(draws, n, coord) by {
        assert(before.noise.allows((draws.own_flip)(coord, n)));
        assert(before.noise.allows((draws.other_flip)(coord, n)));
    }
    assert(hood.map_values(|n: Coord| before.own_play(draws, coord, n)) =~= before.decisions(
        draws,
        coord,
    ));
    assert(hood.map_values(|n: Coord| before.other_play(draws, coord, n)) =~= before.replies(
        draws,
        coord,
    ));
    assert(after.cells[i].score == before.cells[i].score + before.gain(draws, coord));
}

/// The count of `Coop` decisions looks at the decisions alone: two runs of
/// a step from the same grid in which the fair draws agree count the same,
/// whatever the noise is and however it falls.
pub proof fn lemma_coops_ignore_noise(a: State, b: State, first: Draws, second: Draws)
    requires
        a.rows == b.rows,
        a.cols == b.cols,
        a.cells == b.cells,
        first.coin == second.coin,
    ensures
        a.coop_decisions(first) == b.coop_decisions(second),
{
    lemma_coops_upto_ignore_noise(a, b, first, second, a.cells.len() as int);
}

proof fn lemma_coops_upto_ignore_noise(a: State, b: State, first: Draws, second: Draws, upto: int)
    requires
        a.rows == b.rows,
        a.cols == b.cols,
        a.cells == b.cells,
        first.coin == second.coin,
    ensures
        a.coops_upto(first, upto) == b.coops_upto(second, upto),
    decreases upto,
{
    if upto > 0 {
        lemma_coops_upto_ignore_noise(a, b, first, second, upto - 1);
        let coord = coord_at(a.cols, upto - 1);
        assert(a.rivals(coord) =~= b.rivals(coord));
        assert(a.decisions(first, coord) =~= b.decisions(second, coord));
    }
}

/// `holders` counts: it is positive exactly when some agent holds the
/// strategy, and never exceeds the number of agents.
pub proof fn lemma_holders(cells: Seq<Agent>, strategy: Strategy)
    ensures
        0 <= holders(cells, strategy) <= cells.len(),
        holders(cells, strategy) > 0 <==> exists|i: int|
            0 <= i < cells.len() && cells[i].strategy == strategy,
    decreases cells.len(),
{
    if cells.len() > 0 {
        let front = cells.drop_last();
        lemma_holders(front, strategy);
        if holders(cells, strategy) > 0 {
            if cells.last().strategy == strategy {
                assert(cells[cells.len() - 1].strategy == strategy);
            } else {
                let i = choose|i: int| 0 <= i < front.len() && front[i].strategy == strategy;
                assert(cells[i].strategy == strategy);
            }
        }
        if exists|i: int| 0 <= i < cells.len() && cells[i].strategy == strategy {
            let i = choose|i: int| 0 <= i < cells.len() && cells[i].strategy == strategy;
            if i < front.len() {
                assert(front[i].strategy == strategy);
            }
        }
    }
}

/// `top_score` is the maximum: no holder of the strategy scores more, and
/// if the strategy is held at all, some holder scores exactly that.
pub proof fn lemma_top_score(cells: Seq<Agent>, strategy: Strategy)
    ensures
        forall|i: int|
            0 <= i < cells.len() && cells[i].strategy == strategy ==> cells[i].score <= top_score(
                cells,
                strategy,
            ),
        holders(cells, strategy) > 0 ==> exists|i: int|
            0 <= i < cells.len() && cells[i].strategy == strategy && cells[i].score == top_score(
                cells,
                strategy,
            ),
    decreases cells.len(),
{
    if cells.len() > 0 {
        let front = cells.drop_last();
        let last = cells.len() - 1;
        lemma_top_score(front, strategy);
        lemma_holders(front, strategy);
        assert forall|i: int|
            0 <= i < cells.len() && cells[i].strategy == strategy implies cells[i].score
            <= top_score(cells, strategy) by {
            if i < front.len() {
                assert(front[i] == cells[i]);
            }
        }
        if holders(cells, strategy) > 0 {
            if cells[last].strategy == strategy && cells[last].score > top_score(front, strategy) {
                assert(cells[last].score == top_score(cells, strategy));
            } else if holders(front, strategy) > 0 {
                let i = choose|i: int|
                    0 <= i < front.len() && front[i].strategy == strategy && front[i].score
                        == top_score(front, strategy);
                assert(cells[i] == front[i]);
            } else {
                assert(cells[last].strategy == strategy);
                assert(top_score(front, strategy) == 0) by {
                    lemma_top_score_unheld(front, strategy);
                }
                assert(cells[last].score == top_score(cells, strategy));
            }
        }
    }
}

/// A strategy that nobody holds has top score 0.
proof fn lemma_top_score_unheld(cells: Seq<Agent>, strategy: Strategy)
    requires
        holders(cells, strategy) == 0,
    ensures
        top_score(cells, strategy) == 0,
    decreases cells.len(),
{
    if cells.len() > 0 {
        lemma_holders(cells.drop_last(), strategy);
        lemma_top_score_unheld(cells.drop_last(), strategy);
    }
}

/// The census names the strategies that are held, each once and in
/// canonical order, each with the number of its holders; the peaks name
/// the same strategies in the same order, each with its top score.
pub proof fn lemma_census(cells: Seq<Agent>)
    requires
        cells.len() <= usize::MAX,
    ensures
        forall|i: int, j: int|
            0 <= i < j < census(cells).len() ==> (#[trigger] census(cells)[i]).0.rank() < (
            #[trigger] census(cells)[j]).0.rank(),
        forall|strategy: Strategy|
            holders(cells, strategy) > 0 <==> exists|i: int|
                0 <= i < census(cells).len() && (#[trigger] census(cells)[i]).0 == strategy,
        forall|i: int|
            0 <= i < census(cells).len() ==> (#[trigger] census(cells)[i]).1 == holders(
                cells,
                census(cells)[i].0,
            ),
        peaks(cells).len() == census(cells).len(),
        forall|i: int|
            0 <= i < peaks(cells).len() ==> (#[trigger] peaks(cells)[i]).0 == census(cells)[i].0
                && peaks(cells)[i].1 == top_score(cells, peaks(cells)[i].0),
{
    lemma_holders(cells, Strategy::Deflect);
    lemma_holders(cells, Strategy::TicToc);
    lemma_holders(cells, Strategy::Coop);
    lemma_holders(cells, Strategy::Random);
    let list = census(cells);
    assert forall|strategy: Strategy| holders(cells, strategy) > 0 implies exists|i: int|
        0 <= i < list.len() && (#[trigger] list[i]).0 == strategy by {
        let d = listing(
            holders(cells, Strategy::Deflect) > 0,
            Strategy::Deflect,
            holders(cells, Strategy::Deflect) as usize,
        );
        let t = listing(
            holders(cells, Strategy::TicToc) > 0,
            Strategy::TicToc,
            holders(cells, Strategy::TicToc) as usize,
        );
        let c = listing(
            holders(cells, Strategy::Coop) > 0,
            Strategy::Coop,
            holders(cells, Strategy::Coop) as usize,
        );
        let at: int = match strategy {
            Strategy::Deflect => 0int,
            Strategy::TicToc => d.len() as int,
            Strategy::Coop => (d.len() + t.len()) as int,
            Strategy::Random => (d.len() + t.len() + c.len()) as int,
        };
        assert(list[at].0 == strategy);
    }
}

} // verus!
