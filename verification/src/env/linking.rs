use super::passes::{
    after_noise, booked, coops_in, entry, fits, incoming, lemma_index_of, played,
};
use crate::agent::{Action, Coord};
use crate::rules::{Draws, State};
use crate::topology::{
    cell_index, coord_at, in_grid, lemma_coord_round_trip, lemma_index_round_trip, lemma_neighbors,
    touching,
};
use vstd::prelude::*;

verus! {

/// The noise draw that belongs to the cell at `coord` and its neighbour
/// `n`, in a list that holds one row of draws for each cell, aligned with
/// the cell's neighbours. For any other pair, a value that the noise
/// allows.
pub(super) open spec fn drawn(state: State, flips: Seq<Seq<bool>>, coord: Coord, n: Coord) -> bool {
    if in_grid(state.rows, state.cols, coord) && state.hood(coord).contains(n) {
        flips[cell_index(state.cols, coord)][state.hood(coord).index_of(n)]
    } else {
        state.noise.is_always()
    }
}

/// The draws of a step, read off the table of decisions and the lists of
/// flips that the passes produced.
pub(super) open spec fn draws_of(
    state: State,
    table: Seq<Vec<Action>>,
    own: Seq<Seq<bool>>,
    other: Seq<Seq<bool>>,
) -> Draws {
    Draws {
        coin: |c: Coord, n: Coord| entry(table, state.rows, state.cols, c, n),
        own_flip: |c: Coord, n: Coord| drawn(state, own, c, n),
        other_flip: |c: Coord, n: Coord| drawn(state, other, c, n),
    }
}

/// What the three passes establish between them: `mid` is `pre` after
/// imitation, `table` holds the decisions taken in `mid`, and `post` is
/// `mid` after the encounters, with noise as `own` and `other` say.
pub(super) open spec fn stepped(
    pre: State,
    mid: State,
    post: State,
    table: Seq<Vec<Action>>,
    own: Seq<Seq<bool>>,
    other: Seq<Seq<bool>>,
) -> bool {
    &&& pre.wf()
    &&& mid.rows == pre.rows
    &&& mid.cols == pre.cols
    &&& mid.noise == pre.noise
    &&& mid.cells.len() == pre.cells.len()
    &&& forall|i: int|
        #![trigger mid.cells[i]]
        0 <= i < pre.cells.len() ==> {
            &&& mid.cells[i].strategy == pre.adapted(coord_at(pre.cols, i))
            &&& mid.cells[i].coord == pre.cells[i].coord
            &&& mid.cells[i].score == pre.cells[i].score
            &&& mid.cells[i].history == pre.cells[i].history
        }
    &&& fits(table, mid)
    &&& forall|i: int, k: int|
        #![trigger table[i]@[k]]
        0 <= i < table.len() && 0 <= k < table[i]@.len() ==> table[i]@[k]
            == mid.cells[i].strategy.choice(
            mid.cells[i].history.past(mid.hood(coord_at(mid.cols, i))[k]),
            table[i]@[k],
        )
    &&& post.rows == pre.rows
    &&& post.cols == pre.cols
    &&& post.noise == pre.noise
    &&& post.cells.len() == pre.cells.len()
    &&& own.len() == pre.cells.len()
    &&& other.len() == pre.cells.len()
    &&& forall|i: int|
        #![trigger post.cells[i]]
        0 <= i < pre.cells.len() ==> played(mid, table, i, own[i], other[i], post.cells[i])
}

/// The table holds, for cell `j` and its `t`-th neighbour, the decision
/// that the model names for that pair.
proof fn lemma_decided(
    pre: State,
    mid: State,
    post: State,
    table: Seq<Vec<Action>>,
    own: Seq<Seq<bool>>,
    other: Seq<Seq<bool>>,
    j: int,
    t: int,
)
    requires
        stepped(pre, mid, post, table, own, other),
        0 <= j < pre.cells.len(),
        0 <= t < pre.hood(coord_at(pre.cols, j)).len(),
    ensures
        pre.decided(
            draws_of(pre, table, own, other),
            coord_at(pre.cols, j),
            pre.hood(coord_at(pre.cols, j))[t],
        ) == table[j]@[t],
        drawn(pre, own, coord_at(pre.cols, j), pre.hood(coord_at(pre.cols, j))[t]) == own[j][t],
        drawn(pre, other, coord_at(pre.cols, j), pre.hood(coord_at(pre.cols, j))[t])
            == other[j][t],
{
    let coord = coord_at(pre.cols, j);
    let hood = pre.hood(coord);
    let n = hood[t];
    lemma_coord_round_trip(pre.rows, pre.cols, j);
    lemma_neighbors(pre.rows, pre.cols, coord);
    lemma_index_of(hood, t);
    assert(hood.contains(n));
    assert(entry(table, pre.rows, pre.cols, coord, n) == table[j]@[t]);
    assert(mid.cells[j].strategy == pre.adapted(coord));
    assert(pre.at(coord) == pre.cells[j]);
    assert(table[j]@.len() == hood.len());
}

/// The decisions that the neighbours of cell `i` took toward it are those
/// that the model names.
proof fn lemma_incoming(
    pre: State,
    mid: State,
    post: State,
    table: Seq<Vec<Action>>,
    own: Seq<Seq<bool>>,
    other: Seq<Seq<bool>>,
    i: int,
    t: int,
)
    requires
        stepped(pre, mid, post, table, own, other),
        0 <= i < pre.cells.len(),
        0 <= t < pre.hood(coord_at(pre.cols, i)).len(),
    ensures
        incoming(table, mid, coord_at(pre.cols, i))[t] == pre.decided(
            draws_of(pre, table, own, other),
            pre.hood(coord_at(pre.cols, i))[t],
            coord_at(pre.cols, i),
        ),
{
    let coord = coord_at(pre.cols, i);
    let n = pre.hood(coord)[t];
    lemma_coord_round_trip(pre.rows, pre.cols, i);
    lemma_neighbors(pre.rows, pre.cols, coord);
    assert(pre.hood(coord).contains(n));
    lemma_neighbors(pre.rows, pre.cols, n);
    assert(touching(n, coord));
    lemma_index_round_trip(pre.rows, pre.cols, n);
    let j = cell_index(pre.cols, n);
    let back = pre.hood(n);
    let slot = back.index_of(coord);
    assert(back.contains(coord));
    assert(0 <= slot < back.len() && back[slot] == coord);
    lemma_decided(pre, mid, post, table, own, other, j, slot);
    assert(incoming(table, mid, coord)[t] == entry(table, pre.rows, pre.cols, n, coord));
}

/// Cell `i` of `post` is what the model makes of cell `i` of `pre`.
proof fn lemma_cell(
    pre: State,
    mid: State,
    post: State,
    table: Seq<Vec<Action>>,
    own: Seq<Seq<bool>>,
    other: Seq<Seq<bool>>,
    i: int,
)
    requires
        stepped(pre, mid, post, table, own, other),
        0 <= i < pre.cells.len(),
    ensures
        ({
            let draws = draws_of(pre, table, own, other);
            let coord = coord_at(pre.cols, i);
            &&& post.cells[i].coord == coord
            &&& post.cells[i].strategy == pre.adapted(coord)
            &&& post.cells[i].score == pre.cells[i].score + pre.gain(draws, coord)
            &&& post.cells[i].history@ == pre.next_history(draws, coord)
            &&& pre.decisions(draws, coord) == table[i]@
        }),
{
    let draws = draws_of(pre, table, own, other);
    let coord = coord_at(pre.cols, i);
    let hood = pre.hood(coord);
    lemma_coord_round_trip(pre.rows, pre.cols, i);
    lemma_neighbors(pre.rows, pre.cols, coord);
    assert(played(mid, table, i, own[i], other[i], post.cells[i]));
    assert(table[i]@.len() == hood.len());
    let mine = after_noise(table[i]@, own[i]);
    let seen = after_noise(incoming(table, mid, coord), other[i]);
    let own_plays = hood.map_values(|n: Coord| pre.own_play(draws, coord, n));
    let other_plays = hood.map_values(|n: Coord| pre.other_play(draws, coord, n));
    assert forall|t: int| 0 <= t < hood.len() implies mine[t] == own_plays[t] && seen[t]
        == other_plays[t] && pre.decisions(draws, coord)[t] == table[i]@[t] by {
        lemma_decided(pre, mid, post, table, own, other, i, t);
        lemma_incoming(pre, mid, post, table, own, other, i, t);
    }
    assert(mine =~= own_plays);
    assert(seen =~= other_plays);
    assert(pre.decisions(draws, coord) =~= table[i]@);
    let before = pre.at(coord).history;
    let after = post.cells[i].history;
    assert(before == mid.cells[i].history);
    assert(booked(before, after, hood, seen));
    let goal = pre.next_history(draws, coord);
    assert forall|x: Coord| after@.dom().contains(x) <==> goal.dom().contains(x) by {
        if hood.contains(x) {
            let t = choose|t: int| 0 <= t < hood.len() && hood[t] == x;
            assert(after@.dom().contains(hood[t]));
        }
    }
    assert forall|x: Coord| after@.dom().contains(x) implies after@[x] == goal[x] by {
        if hood.contains(x) {
            let t = choose|t: int| 0 <= t < hood.len() && hood[t] == x;
            assert(after@[hood[t]] == before.past(hood[t]).push(seen[t]));
            assert(seen[t] == other_plays[t]);
        }
    }
    assert(after@ =~= goal);
}

/// The table holds as many `Coop` decisions in its first `upto` rows as
/// the model counts for the first `upto` cells.
proof fn lemma_coops(
    pre: State,
    mid: State,
    post: State,
    table: Seq<Vec<Action>>,
    own: Seq<Seq<bool>>,
    other: Seq<Seq<bool>>,
    upto: int,
)
    requires
        stepped(pre, mid, post, table, own, other),
        0 <= upto <= pre.cells.len(),
    ensures
        pre.coops_upto(draws_of(pre, table, own, other), upto) == coops_in(table, upto),
    decreases upto,
{
    if upto > 0 {
        lemma_coops(pre, mid, post, table, own, other, upto - 1);
        lemma_cell(pre, mid, post, table, own, other, upto - 1);
    }
}

/// The three passes together make the step that the model describes, for
/// the draws read off what they produced.
pub(super) proof fn lemma_step(
    pre: State,
    mid: State,
    post: State,
    table: Seq<Vec<Action>>,
    own: Seq<Seq<bool>>,
    other: Seq<Seq<bool>>,
)
    requires
        stepped(pre, mid, post, table, own, other),
    ensures
        draws_of(pre, table, own, other).obeys(pre.noise),
        pre.steps_to(draws_of(pre, table, own, other), post),
        pre.coop_decisions(draws_of(pre, table, own, other)) == coops_in(
            table,
            table.len() as int,
        ),
{
    let draws = draws_of(pre, table, own, other);
    assert forall|c: Coord, n: Coord|
        pre.noise.allows(drawn(pre, own, c, n)) && pre.noise.allows(
            drawn(pre, other, c, n),
        ) by {
        if in_grid(pre.rows, pre.cols, c) && pre.hood(c).contains(n) {
            lemma_index_round_trip(pre.rows, pre.cols, c);
            let i = cell_index(pre.cols, c);
            let t = pre.hood(c).index_of(n);
            assert(0 <= t < pre.hood(c).len());
            assert(played(mid, table, i, own[i], other[i], post.cells[i]));
            assert(pre.noise.allows(own[i][t]));
            assert(pre.noise.allows(other[i][t]));
        }
    }
    assert forall|c: Coord, n: Coord| pre.noise.allows(#[trigger] (draws.own_flip)(c, n)) by {
        assert(pre.noise.allows(drawn(pre, own, c, n)));
    }
    assert forall|c: Coord, n: Coord| pre.noise.allows(#[trigger] (draws.other_flip)(c, n)) by {
        assert(pre.noise.allows(drawn(pre, other, c, n)));
    }
    assert forall|i: int| 0 <= i < pre.cells.len() implies {
        let coord = coord_at(pre.cols, i);
        &&& (#[trigger] post.cells[i]).coord == coord
        &&& post.cells[i].strategy == pre.adapted(coord)
        &&& post.cells[i].score == pre.cells[i].score + pre.gain(draws, coord)
        &&& post.cells[i].history@ == pre.next_history(draws, coord)
    } by {
        lemma_cell(pre, mid, post, table, own, other, i);
    }
    lemma_coops(pre, mid, post, table, own, other, pre.cells.len() as int);
}

} // verus!
