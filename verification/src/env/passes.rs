use super::{visited, Environment};
use crate::agent::{imitate, pointees, Action, Agent, Coord, History, Strategy};
use crate::rules::{coops, payoff, total_payoff, State};
use crate::topology::{
    cell_index, coord_at, in_grid, lemma_coord_round_trip, lemma_index_round_trip, lemma_neighbors,
    neighbors, touching,
};
use vstd::prelude::*;

verus! {

/// In a sequence without duplicates every element is found at its own
/// index.
pub(super) proof fn lemma_index_of(list: Seq<Coord>, k: int)
    requires
        list.no_duplicates(),
        0 <= k < list.len(),
    ensures
        list.index_of(list[k]) == k,
{
    let found = list.index_of(list[k]);
    assert(0 <= found < list.len() && list[found] == list[k]);
}

/// In a table that holds one row of decisions for each cell, aligned with
/// the cell's neighbours: the decision of the cell at `from` toward `to`.
pub(super) open spec fn entry(
    table: Seq<Vec<Action>>,
    rows: usize,
    cols: usize,
    from: Coord,
    to: Coord,
) -> Action {
    table[cell_index(cols, from)]@[neighbors(rows, cols, from).index_of(to)]
}

/// The table has one row for each cell, as long as the cell has neighbours.
pub(super) open spec fn fits(table: Seq<Vec<Action>>, state: State) -> bool {
    &&& table.len() == state.cells.len()
    &&& forall|i: int|
        0 <= i < table.len() ==> (#[trigger] table[i])@.len() == state.hood(
            coord_at(state.cols, i),
        ).len()
}

/// The decisions that the neighbours of `coord` took toward it, in the
/// order of the neighbours.
pub(super) open spec fn incoming(table: Seq<Vec<Action>>, state: State, coord: Coord) -> Seq<
    Action,
> {
    state.hood(coord).map_values(|n: Coord| entry(table, state.rows, state.cols, n, coord))
}

/// The actions played when `row` was decided and the noise draws came out
/// as `flips`.
pub(super) open spec fn after_noise(row: Seq<Action>, flips: Seq<bool>) -> Seq<Action> {
    Seq::new(row.len(), |t: int| row[t].perturbed(flips[t]))
}

/// `after` is `before` with one more action seen from each cell of `hood`:
/// from `hood[t]` the action `seen[t]`.
pub(super) open spec fn booked(
    before: History,
    after: History,
    hood: Seq<Coord>,
    seen: Seq<Action>,
) -> bool {
    &&& forall|t: int|
        0 <= t < hood.len() ==> after@.dom().contains(#[trigger] hood[t]) && after@[hood[t]]
            == before.past(hood[t]).push(seen[t])
    &&& forall|x: Coord|
        !hood.contains(x) ==> (after@.dom().contains(x) <==> before@.dom().contains(x)) && (
        before@.dom().contains(x) ==> after@[x] == before@[x])
}

/// Where `target` stands in `list`.
fn position(list: &Vec<Coord>, target: Coord) -> (at: usize)
    requires
        list@.contains(target),
    ensures
        at < list@.len(),
        list@[at as int] == target,
{
    let mut at: usize = 0;
    while at < list.len()
        invariant
            at <= list@.len(),
            list@.contains(target),
            forall|j: int| 0 <= j < at ==> list@[j] != target,
        decreases list@.len() - at,
    {
        if list[at].0 == target.0 && list[at].1 == target.1 {
            return at;
        }
        at += 1;
    }
    proof {
        let j = choose|j: int| 0 <= j < list@.len() && list@[j] == target;
        assert(false);
    }
    at
}

impl Environment {
    /// First pass of a step: every cell imitates, each looking at its
    /// neighbours as they were when the pass began.
    pub(super) fn adapt_pass(&mut self)
        requires
            old(self).wf(),
        ensures
            final(self).wf(),
            final(self)@.rows == old(self)@.rows,
            final(self)@.cols == old(self)@.cols,
            final(self)@.noise == old(self)@.noise,
            final(self)@.cells.len() == old(self)@.cells.len(),
            forall|i: int|
                #![trigger final(self)@.cells[i]]
                0 <= i < old(self)@.cells.len() ==> {
                    &&& final(self)@.cells[i].strategy == old(self)@.adapted(
                        coord_at(old(self)@.cols, i),
                    )
                    &&& final(self)@.cells[i].coord == old(self)@.cells[i].coord
                    &&& final(self)@.cells[i].score == old(self)@.cells[i].score
                    &&& final(self)@.cells[i].history == old(self)@.cells[i].history
                },
    {
        let ghost before = self@;
        let count = self.grid.len();
        let imitation = |curr: &Agent, neighbors: Vec<&Agent>| -> (next: Strategy)
            ensures
                next == imitate(curr.strategy, curr.score, pointees(neighbors@)),
            { curr.imitated(&neighbors) };
        let next = self.for_each_cell(imitation);
        proof {
            assert forall|j: int| 0 <= j < count implies #[trigger] next@[j] == before.adapted(
                coord_at(before.cols, j),
            ) by {
                lemma_coord_round_trip(before.rows, before.cols, j);
            }
        }
        let mut i: usize = 0;
        while i < count
            invariant
                before.wf(),
                count == before.cells.len(),
                8 * count <= usize::MAX,
                i <= count,
                next@.len() == count,
                forall|j: int|
                    0 <= j < count ==> next@[j] == before.adapted(coord_at(before.cols, j)),
                self@.rows == before.rows,
                self@.cols == before.cols,
                self@.noise == before.noise,
                self@.cells.len() == count,
                forall|j: int|
                    #![trigger self@.cells[j]]
                    0 <= j < count ==> {
                        &&& self@.cells[j].strategy == if j < i {
                            next@[j]
                        } else {
                            before.cells[j].strategy
                        }
                        &&& self@.cells[j].coord == before.cells[j].coord
                        &&& self@.cells[j].score == before.cells[j].score
                        &&& self@.cells[j].history == before.cells[j].history
                    },
            decreases count - i,
        {
            self.grid[i].strategy = next[i];
            i += 1;
        }
    }

    /// Second pass of a step: every cell decides on an action toward each
    /// of its neighbours. The table has one row for each cell, aligned with
    /// the cell's neighbours.
    pub(super) fn decide_pass(&self) -> (table: Vec<Vec<Action>>)
        requires
            self.wf(),
        ensures
            fits(table@, self@),
            forall|i: int, k: int|
                #![trigger table@[i]@[k]]
                0 <= i < table@.len() && 0 <= k < table@[i]@.len() ==> table@[i]@[k]
                    == self@.cells[i].strategy.choice(
                    self@.cells[i].history.past(self@.hood(coord_at(self@.cols, i))[k]),
                    table@[i]@[k],
                ),
    {
        let decision = |curr: &Agent, neighbors: Vec<&Agent>| -> (row: Vec<Action>)
            ensures
                row@.len() == neighbors@.len(),
                forall|k: int|
                    0 <= k < row@.len() ==> #[trigger] row@[k] == curr.strategy.choice(
                        curr.history.past(neighbors@[k].coord),
                        row@[k],
                    ),
            { curr.get_actions(&neighbors) };
        let table = self.for_each_cell(decision);
        proof {
            assert forall|i: int| 0 <= i < table@.len() implies (#[trigger] table@[i])@.len()
                == self@.hood(coord_at(self@.cols, i)).len() && forall|k: int|
                0 <= k < table@[i]@.len() ==> #[trigger] table@[i]@[k]
                    == self@.cells[i].strategy.choice(
                    self@.cells[i].history.past(self@.hood(coord_at(self@.cols, i))[k]),
                    table@[i]@[k],
                ) by {
                let coord = coord_at(self@.cols, i);
                let hood = self@.hood(coord);
                assert(visited(self@, decision, i, table@[i]));
                let around = choose|around: Vec<&Agent>|
                    pointees(around@) == self@.rivals(coord) && #[trigger] decision.ensures(
                        (&self@.cells[i], around),
                        table@[i],
                    );
                lemma_neighbors(self@.rows, self@.cols, coord);
                assert(pointees(around@).len() == hood.len());
                assert forall|k: int| 0 <= k < hood.len() implies (#[trigger] around@[k]).coord
                    == hood[k] by {
                    assert(pointees(around@)[k] == self@.at(hood[k]));
                    assert(hood.contains(hood[k]));
                    lemma_index_round_trip(self@.rows, self@.cols, hood[k]);
                }
            }
        }
        table
    }

    /// One encounter of the third pass, that of cell `i` with its `k`-th
    /// neighbour: both decisions pass through noise, the cell books what it
    /// saw of the neighbour and adds its payoff. The result says whether
    /// noise flipped the cell's action, and whether it flipped the
    /// neighbour's.
    fn meet(
        &mut self,
        table: &Vec<Vec<Action>>,
        i: usize,
        k: usize,
        n: Coord,
    ) -> (flips: Ghost<(bool, bool)>)
        requires
            old(self).wf(),
            fits(table@, old(self)@),
            i < old(self)@.cells.len(),
            k < old(self)@.hood(coord_at(old(self)@.cols, i as int)).len(),
            n == old(self)@.hood(coord_at(old(self)@.cols, i as int))[k as int],
            old(self)@.cells[i as int].score <= u64::MAX - 4,
        ensures
            final(self).wf(),
            final(self)@.rows == old(self)@.rows,
            final(self)@.cols == old(self)@.cols,
            final(self)@.noise == old(self)@.noise,
            final(self)@.cells.len() == old(self)@.cells.len(),
            forall|j: int|
                0 <= j < old(self)@.cells.len() && j != i ==> #[trigger] final(self)@.cells[j]
                    == old(self)@.cells[j],
            old(self)@.noise.allows(flips@.0),
            old(self)@.noise.allows(flips@.1),
            final(self)@.cells[i as int].coord == old(self)@.cells[i as int].coord,
            final(self)@.cells[i as int].strategy == old(self)@.cells[i as int].strategy,
            met(
                old(self)@.cells[i as int],
                final(self)@.cells[i as int],
                n,
                table@[i as int]@[k as int].perturbed(flips@.0),
                incoming(
                    table@,
                    old(self)@,
                    coord_at(old(self)@.cols, i as int),
                )[k as int].perturbed(flips@.1),
            ),
    {
        let ghost before = self@;
        let coord = self.grid[i].coord;
        assert(coord == coord_at(before.cols, i as int));
        assert(in_grid(before.rows, before.cols, coord)) by {
            lemma_coord_round_trip(before.rows, before.cols, i as int);
        }
        assert(in_grid(before.rows, before.cols, n) && touching(n, coord)) by {
            lemma_neighbors(before.rows, before.cols, coord);
            assert(before.hood(coord).contains(n));
        }
        let at = self.to_vec_index(n);
        assert(coord_at(before.cols, at as int) == n) by {
            lemma_index_round_trip(before.rows, before.cols, n);
        }
        let back = self.neighbor_coord(n);
        assert(back@.contains(coord) && back@.no_duplicates()) by {
            lemma_neighbors(before.rows, before.cols, n);
        }
        let slot = position(&back, coord);
        assert(back@.index_of(coord) == slot) by {
            lemma_index_of(back@, slot as int);
        }
        assert(incoming(table@, before, coord)[k as int] == table@[at as int]@[slot as int]) by {
            assert(incoming(table@, before, coord)[k as int] == entry(
                table@,
                before.rows,
                before.cols,
                n,
                coord,
            ));
        }
        assert(table@[at as int]@.len() == back@.len());
        assert(table@[i as int]@.len() == before.hood(coord).len());
        let mine = table[i][k].with_noise(self.noise);
        let theirs = table[at][slot].with_noise(self.noise);
        let points = Environment::score(mine, theirs);
        self.grid[i].record_and_score(n, theirs, points);
        Ghost((mine != table@[i as int]@[k as int], theirs != table@[at as int]@[slot as int]))
    }

    /// The encounters of cell `i` in the third pass, with each neighbour in
    /// turn. The result lists, per neighbour, whether noise flipped the
    /// cell's action and whether it flipped the neighbour's.
    fn play_cell(&mut self, table: &Vec<Vec<Action>>, i: usize) -> (flips: Ghost<
        (Seq<bool>, Seq<bool>),
    >)
        requires
            old(self).wf(),
            fits(table@, old(self)@),
            i < old(self)@.cells.len(),
            old(self)@.cells[i as int].score <= u64::MAX - 32,
        ensures
            final(self).wf(),
            final(self)@.rows == old(self)@.rows,
            final(self)@.cols == old(self)@.cols,
            final(self)@.noise == old(self)@.noise,
            final(self)@.cells.len() == old(self)@.cells.len(),
            forall|j: int|
                0 <= j < old(self)@.cells.len() && j != i ==> #[trigger] final(self)@.cells[j]
                    == old(self)@.cells[j],
            played(old(self)@, table@, i as int, flips@.0, flips@.1, final(self)@.cells[i as int]),
    {
        let ghost before = self@;
        let ghost coord = coord_at(before.cols, i as int);
        let ghost hood = before.hood(coord);
        let ghost toward = table@[i as int]@;
        let ghost from = incoming(table@, before, coord);
        let ghost mut own_flips: Seq<bool> = Seq::empty();
        let ghost mut other_flips: Seq<bool> = Seq::empty();
        let around = self.neighbor_coord(self.grid[i].coord);
        let count = around.len();
        proof {
            lemma_neighbors(before.rows, before.cols, coord);
            assert(after_noise(toward.take(0), own_flips) =~= Seq::<Action>::empty());
            assert(after_noise(from.take(0), other_flips) =~= Seq::<Action>::empty());
        }
        let mut k: usize = 0;
        while k < count
            invariant
                self.wf(),
                fits(table@, before),
                i < before.cells.len(),
                coord == coord_at(before.cols, i as int),
                hood == before.hood(coord),
                around@ == hood,
                hood.no_duplicates(),
                count == hood.len(),
                count <= 8,
                toward == table@[i as int]@,
                from == incoming(table@, before, coord),
                self@.rows == before.rows,
                self@.cols == before.cols,
                self@.noise == before.noise,
                self@.cells.len() == before.cells.len(),
                forall|j: int|
                    0 <= j < before.cells.len() && j != i ==> #[trigger] self@.cells[j]
                        == before.cells[j],
                self@.cells[i as int].coord == before.cells[i as int].coord,
                self@.cells[i as int].strategy == before.cells[i as int].strategy,
                k <= count,
                own_flips.len() == k,
                other_flips.len() == k,
                forall|t: int| 0 <= t < k ==> before.noise.allows(#[trigger] own_flips[t]),
                forall|t: int| 0 <= t < k ==> before.noise.allows(#[trigger] other_flips[t]),
                before.cells[i as int].score <= u64::MAX - 32,
                self@.cells[i as int].score == before.cells[i as int].score + total_payoff(
                    after_noise(toward.take(k as int), own_flips),
                    after_noise(from.take(k as int), other_flips),
                ),
                self@.cells[i as int].score <= before.cells[i as int].score + 4 * k,
                booked(
                    before.cells[i as int].history,
                    self@.cells[i as int].history,
                    hood.take(k as int),
                    after_noise(from.take(k as int), other_flips),
                ),
            decreases count - k,
        {
            let ghost mid = self@.cells[i as int];
            let flips = self.meet(table, i, k, around[k]);
            proof {
                let now = self@.cells[i as int];
                lemma_after_noise_push(toward, own_flips, k as int, flips@.0);
                lemma_after_noise_push(from, other_flips, k as int, flips@.1);
                lemma_total_payoff_push(
                    after_noise(toward.take(k as int), own_flips),
                    after_noise(from.take(k as int), other_flips),
                    toward[k as int].perturbed(flips@.0),
                    from[k as int].perturbed(flips@.1),
                );
                lemma_booked_push(
                    before.cells[i as int].history,
                    mid.history,
                    now.history,
                    hood,
                    k as int,
                    after_noise(from.take(k as int), other_flips),
                    from[k as int].perturbed(flips@.1),
                );
                own_flips = own_flips.push(flips@.0);
                other_flips = other_flips.push(flips@.1);
            }
            k += 1;
        }
        proof {
            assert(toward.take(k as int) =~= toward);
            assert(from.take(k as int) =~= from);
            assert(hood.take(k as int) =~= hood);
        }
        Ghost((own_flips, other_flips))
    }

    /// Third pass of a step: every cell meets each of its neighbours. The
    /// result lists, per cell and neighbour, whether noise flipped the
    /// cell's action and whether it flipped the neighbour's.
    pub(super) fn apply_pass(&mut self, table: &Vec<Vec<Action>>) -> (flips: Ghost<
        (Seq<Seq<bool>>, Seq<Seq<bool>>),
    >)
        requires
            old(self).wf(),
            old(self).has_headroom(),
            fits(table@, old(self)@),
        ensures
            final(self).wf(),
            final(self)@.rows == old(self)@.rows,
            final(self)@.cols == old(self)@.cols,
            final(self)@.noise == old(self)@.noise,
            final(self)@.cells.len() == old(self)@.cells.len(),
            flips@.0.len() == old(self)@.cells.len(),
            flips@.1.len() == old(self)@.cells.len(),
            forall|i: int|
                #![trigger final(self)@.cells[i]]
                0 <= i < old(self)@.cells.len() ==> played(
                    old(self)@,
                    table@,
                    i,
                    flips@.0[i],
                    flips@.1[i],
                    final(self)@.cells[i],
                ),
    {
        let ghost before = self@;
        let ghost mut own: Seq<Seq<bool>> = Seq::empty();
        let ghost mut other: Seq<Seq<bool>> = Seq::empty();
        let count = self.grid.len();
        let mut i: usize = 0;
        while i < count
            invariant
                self.wf(),
                before.wf(),
                fits(table@, before),
                count == before.cells.len(),
                self@.rows == before.rows,
                self@.cols == before.cols,
                self@.noise == before.noise,
                self@.cells.len() == before.cells.len(),
                i <= count,
                own.len() == i,
                other.len() == i,
                forall|j: int|
                    i <= j < count ==> #[trigger] self@.cells[j] == before.cells[j],
                forall|j: int|
                    0 <= j < count ==> (#[trigger] before.cells[j]).score <= u64::MAX - 32,
                forall|j: int|
                    #![trigger self@.cells[j]]
                    0 <= j < i ==> played(before, table@, j, own[j], other[j], self@.cells[j]),
            decreases count - i,
        {
            let ghost mid = self@;
            assert(mid.cells[i as int] == before.cells[i as int]);
            let flips = self.play_cell(table, i);
            proof {
                assert(played(
                    before,
                    table@,
                    i as int,
                    flips@.0,
                    flips@.1,
                    self@.cells[i as int],
                ));
                own = own.push(flips@.0);
                other = other.push(flips@.1);
                assert forall|j: int| 0 <= j < i + 1 implies played(
                    before,
                    table@,
                    j,
                    own[j],
                    other[j],
                    #[trigger] self@.cells[j],
                ) by {
                    if j < i {
                        assert(self@.cells[j] == mid.cells[j]);
                    }
                }
            }
            i += 1;
        }
        Ghost((own, other))
    }

    /// How many decisions of the table are `Coop`.
    pub(super) fn count_coops(table: &Vec<Vec<Action>>) -> (total: usize)
        requires
            8 * table@.len() <= usize::MAX,
            forall|i: int| 0 <= i < table@.len() ==> (#[trigger] table@[i])@.len() <= 8,
        ensures
            total == coops_in(table@, table@.len() as int),
    {
        let mut total: usize = 0;
        let mut i: usize = 0;
        while i < table.len()
            invariant
                8 * table@.len() <= usize::MAX,
                forall|j: int| 0 <= j < table@.len() ==> (#[trigger] table@[j])@.len() <= 8,
                i <= table@.len(),
                total == coops_in(table@, i as int),
                total <= 8 * i,
            decreases table@.len() - i,
        {
            let row = &table[i];
            let mut k: usize = 0;
            let mut found: usize = 0;
            while k < row.len()
                invariant
                    k <= row@.len(),
                    row@.len() <= 8,
                    found == coops(row@.take(k as int)),
                    found <= k,
                decreases row@.len() - k,
            {
                assert(row@.take(k + 1).drop_last() =~= row@.take(k as int));
                if row[k] == Action::Coop {
                    found += 1;
                }
                k += 1;
            }
            assert(row@.take(k as int) =~= row@);
            total += found;
            i += 1;
        }
        total
    }
}

/// How many decisions in the first `upto` rows of the table are `Coop`.
pub(super) open spec fn coops_in(table: Seq<Vec<Action>>, upto: int) -> int
    decreases upto,
{
    if upto <= 0 {
        0
    } else {
        coops_in(table, upto - 1) + coops(table[upto - 1]@)
    }
}

/// What one encounter makes of an agent: `after` is `before` once it has
/// met the cell at `n`, played `mine` and seen `theirs`.
spec fn met(
    before: Agent,
    after: Agent,
    n: Coord,
    mine: Action,
    theirs: Action,
) -> bool {
    &&& after.score == before.score + payoff(mine, theirs)
    &&& after.history@ == before.history@.insert(n, before.history.past(n).push(theirs))
}

/// One more noise draw settles one more played action.
proof fn lemma_after_noise_push(row: Seq<Action>, flips: Seq<bool>, k: int, flip: bool)
    requires
        0 <= k < row.len(),
        flips.len() == k,
    ensures
        after_noise(row.take(k + 1), flips.push(flip)) == after_noise(row.take(k), flips).push(
            row[k].perturbed(flip),
        ),
{
    assert(after_noise(row.take(k + 1), flips.push(flip)) =~= after_noise(
        row.take(k),
        flips,
    ).push(row[k].perturbed(flip)));
}

/// One more encounter adds its payoff to the total.
proof fn lemma_total_payoff_push(
    mine: Seq<Action>,
    theirs: Seq<Action>,
    m: Action,
    t: Action,
)
    requires
        mine.len() == theirs.len(),
    ensures
        total_payoff(mine.push(m), theirs.push(t)) == total_payoff(mine, theirs) + payoff(m, t),
        payoff(m, t) <= 4,
{
    assert(mine.push(m).drop_last() =~= mine);
    assert(theirs.push(t).drop_last() =~= theirs);
}

/// Booking one more encounter, with the next cell of `hood`, keeps the
/// books in step with the part of `hood` that has been met.
proof fn lemma_booked_push(
    start: History,
    mid: History,
    now: History,
    hood: Seq<Coord>,
    k: int,
    seen: Seq<Action>,
    theirs: Action,
)
    requires
        hood.no_duplicates(),
        0 <= k < hood.len(),
        seen.len() == k,
        booked(start, mid, hood.take(k), seen),
        now@ == mid@.insert(hood[k], mid.past(hood[k]).push(theirs)),
    ensures
        booked(start, now, hood.take(k + 1), seen.push(theirs)),
{
    let n = hood[k];
    let met_before = hood.take(k);
    let met_now = hood.take(k + 1);
    let seen_now = seen.push(theirs);
    assert(!met_before.contains(n)) by {
        if met_before.contains(n) {
            let t = choose|t: int| 0 <= t < met_before.len() && met_before[t] == n;
            assert(hood[t] == hood[k]);
        }
    }
    assert(mid.past(n) == start.past(n));
    assert forall|t: int| 0 <= t < met_now.len() implies now@.dom().contains(
        #[trigger] met_now[t],
    ) && now@[met_now[t]] == start.past(met_now[t]).push(seen_now[t]) by {
        if t < k {
            assert(met_before[t] == hood[t]);
            assert(hood[t] != n);
            assert(seen_now[t] == seen[t]);
        }
    }
    assert forall|x: Coord| !met_now.contains(x) implies (now@.dom().contains(x)
        <==> start@.dom().contains(x)) && (start@.dom().contains(x) ==> now@[x] == start@[x]) by {
        assert(met_now[k] == n);
        assert(x != n);
        if met_before.contains(x) {
            let t = choose|t: int| 0 <= t < met_before.len() && met_before[t] == x;
            assert(met_now[t] == x);
        }
    }
}

/// What the third pass makes of cell `i`: `cell` is the agent that `state`
/// holds there, after its encounters with all its neighbours, where
/// `table` holds the decisions and noise flipped as `own_flips` (the
/// cell's actions) and `other_flips` (the neighbours') say.
pub(super) open spec fn played(
    state: State,
    table: Seq<Vec<Action>>,
    i: int,
    own_flips: Seq<bool>,
    other_flips: Seq<bool>,
    cell: Agent,
) -> bool {
    let coord = coord_at(state.cols, i);
    let hood = state.hood(coord);
    let mine = after_noise(table[i]@, own_flips);
    let seen = after_noise(incoming(table, state, coord), other_flips);
    &&& own_flips.len() == hood.len()
    &&& other_flips.len() == hood.len()
    &&& forall|t: int| 0 <= t < hood.len() ==> state.noise.allows(#[trigger] own_flips[t])
    &&& forall|t: int| 0 <= t < hood.len() ==> state.noise.allows(#[trigger] other_flips[t])
    &&& cell.coord == coord
    &&& cell.strategy == state.cells[i].strategy
    &&& cell.score == state.cells[i].score + total_payoff(mine, seen)
    &&& booked(state.cells[i].history, cell.history, hood, seen)
}

} // verus!
