use crate::agent::Coord;
use vstd::prelude::*;

verus! {

/// `coord` names a cell of a grid of `rows` by `cols` cells.
pub open spec fn in_grid(rows: usize, cols: usize, coord: Coord) -> bool {
    coord.0 < rows && coord.1 < cols
}

/// Row-major position of the cell at `coord`.
pub open spec fn cell_index(cols: usize, coord: Coord) -> int {
    cols * coord.0 + coord.1
}

/// The coordinate whose row-major position is `index`.
pub open spec fn coord_at(cols: usize, index: int) -> Coord {
    ((index / cols as int) as usize, (index % cols as int) as usize)
}

/// Two different cells at most one row and one column apart.
pub open spec fn touching(a: Coord, b: Coord) -> bool {
    &&& a != b
    &&& a.0 - b.0 <= 1
    &&& b.0 - a.0 <= 1
    &&& a.1 - b.1 <= 1
    &&& b.1 - a.1 <= 1
}

/// The cell `dr` rows and `dc` columns away from `coord`, as a sequence of
/// one coordinate; empty where that cell lies outside the grid.
pub open spec fn hop(rows: usize, cols: usize, coord: Coord, dr: int, dc: int) -> Seq<Coord> {
    if 0 <= coord.0 + dr < rows && 0 <= coord.1 + dc < cols {
        seq![((coord.0 + dr) as usize, (coord.1 + dc) as usize)]
    } else {
        Seq::empty()
    }
}

/// The cells of the grid around `coord`, row by row: the eight offsets of
/// the Moore neighbourhood, without those that leave the grid.
#[verifier::opaque]
pub open spec fn neighbors(rows: usize, cols: usize, coord: Coord) -> Seq<Coord> {
    hop(rows, cols, coord, -1, -1) + hop(rows, cols, coord, -1, 0) + hop(rows, cols, coord, -1, 1)
        + hop(rows, cols, coord, 0, -1) + hop(rows, cols, coord, 0, 1)
        + hop(rows, cols, coord, 1, -1) + hop(rows, cols, coord, 1, 0)
        + hop(rows, cols, coord, 1, 1)
}

/// Different cells of a grid have different row-major positions, and every
/// position lies below the number of cells.
pub proof fn lemma_index_injective(rows: usize, cols: usize, a: Coord, b: Coord)
    requires
        in_grid(rows, cols, a),
        in_grid(rows, cols, b),
        a != b,
    ensures
        cell_index(cols, a) != cell_index(cols, b),
        0 <= cell_index(cols, a) < rows * cols,
        0 <= cell_index(cols, b) < rows * cols,
{
    lemma_index_round_trip(rows, cols, a);
    lemma_index_round_trip(rows, cols, b);
}

/// The row-major position of a cell lies below the number of cells and
/// leads back to the cell.
pub proof fn lemma_index_round_trip(rows: usize, cols: usize, coord: Coord)
    requires
        in_grid(rows, cols, coord),
    ensures
        0 <= cell_index(cols, coord) < rows * cols,
        coord_at(cols, cell_index(cols, coord)) == coord,
{
    let r = coord.0 as int;
    let c = coord.1 as int;
    let w = cols as int;
    assert(w * r + c < rows * w) by (nonlinear_arith)
        requires
            0 <= r < rows,
            0 <= c < w,
    ;
    assert(0 <= w * r) by (nonlinear_arith)
        requires
            0 <= r,
            0 <= w,
    ;
    assert((w * r + c) / w == r && (w * r + c) % w == c) by (nonlinear_arith)
        requires
            0 <= r,
            0 <= c < w,
    ;
}

/// Every position below the number of cells is that of a cell of the grid.
pub proof fn lemma_coord_round_trip(rows: usize, cols: usize, index: int)
    requires
        0 <= index < rows * cols,
    ensures
        in_grid(rows, cols, coord_at(cols, index)),
        cell_index(cols, coord_at(cols, index)) == index,
{
    let w = cols as int;
    let h = rows as int;
    assert(w > 0) by (nonlinear_arith)
        requires
            0 <= index < h * w,
            0 <= w,
    ;
    assert(0 <= index / w < h && 0 <= index % w < w && w * (index / w) + index % w == index)
        by (nonlinear_arith)
        requires
            0 <= index < h * w,
            0 < w,
    ;
}

/// `n` is the cell `dr` rows and `dc` columns away from `coord`, and lies in
/// the grid.
spec fn reached(rows: usize, cols: usize, coord: Coord, dr: int, dc: int, n: Coord) -> bool {
    &&& 0 <= coord.0 + dr < rows
    &&& 0 <= coord.1 + dc < cols
    &&& n.0 == coord.0 + dr
    &&& n.1 == coord.1 + dc
}

proof fn lemma_hop(rows: usize, cols: usize, coord: Coord, dr: int, dc: int)
    ensures
        hop(rows, cols, coord, dr, dc).len() <= 1,
        forall|n: Coord|
            hop(rows, cols, coord, dr, dc).contains(n) <==> reached(rows, cols, coord, dr, dc, n),
{
    let h = hop(rows, cols, coord, dr, dc);
    assert forall|n: Coord| reached(rows, cols, coord, dr, dc, n) implies h.contains(n) by {
        assert(h[0] == n);
    }
}

/// Appending at most one new element keeps a sequence free of duplicates.
proof fn lemma_extend(s: Seq<Coord>, h: Seq<Coord>)
    requires
        h.len() <= 1,
        s.no_duplicates(),
        forall|n: Coord| h.contains(n) ==> !s.contains(n),
    ensures
        (s + h).no_duplicates(),
        (s + h).len() == s.len() + h.len(),
        forall|n: Coord| (s + h).contains(n) <==> s.contains(n) || h.contains(n),
{
    let t = s + h;
    assert forall|n: Coord| t.contains(n) implies s.contains(n) || h.contains(n) by {
        let i = choose|i: int| 0 <= i < t.len() && t[i] == n;
        if i < s.len() {
            assert(s[i] == n);
        } else {
            assert(h[i - s.len()] == n);
        }
    }
    assert forall|n: Coord| s.contains(n) || h.contains(n) implies t.contains(n) by {
        if s.contains(n) {
            let i = choose|i: int| 0 <= i < s.len() && s[i] == n;
            assert(t[i] == n);
        } else {
            let i = choose|i: int| 0 <= i < h.len() && h[i] == n;
            assert(t[s.len() + i] == n);
        }
    }
    assert forall|i: int, j: int| 0 <= i < t.len() && 0 <= j < t.len() && i != j implies t[i]
        != t[j] by {
        if i < s.len() && j < s.len() {
        } else if i < s.len() {
            assert(h.contains(t[j]));
            assert(s.contains(t[i]));
        } else if j < s.len() {
            assert(h.contains(t[i]));
            assert(s.contains(t[j]));
        }
    }
}

/// What the neighbourhood of a cell holds: exactly the cells of the grid
/// that touch it, each once, and so neither the cell itself nor anything
/// outside the grid.
pub proof fn lemma_neighbors(rows: usize, cols: usize, coord: Coord)
    ensures
        neighbors(rows, cols, coord).len() <= 8,
        neighbors(rows, cols, coord).no_duplicates(),
        forall|n: Coord|
            #![trigger neighbors(rows, cols, coord).contains(n)]
            neighbors(rows, cols, coord).contains(n) <==> in_grid(rows, cols, n) && touching(
                coord,
                n,
            ),
        !neighbors(rows, cols, coord).contains(coord),
{
    reveal(neighbors);
    let h1 = hop(rows, cols, coord, -1, -1);
    let h2 = hop(rows, cols, coord, -1, 0);
    let h3 = hop(rows, cols, coord, -1, 1);
    let h4 = hop(rows, cols, coord, 0, -1);
    let h5 = hop(rows, cols, coord, 0, 1);
    let h6 = hop(rows, cols, coord, 1, -1);
    let h7 = hop(rows, cols, coord, 1, 0);
    let h8 = hop(rows, cols, coord, 1, 1);
    lemma_hop(rows, cols, coord, -1, -1);
    lemma_hop(rows, cols, coord, -1, 0);
    lemma_hop(rows, cols, coord, -1, 1);
    lemma_hop(rows, cols, coord, 0, -1);
    lemma_hop(rows, cols, coord, 0, 1);
    lemma_hop(rows, cols, coord, 1, -1);
    lemma_hop(rows, cols, coord, 1, 0);
    lemma_hop(rows, cols, coord, 1, 1);
    let s1 = h1;
    let s2 = s1 + h2;
    let s3 = s2 + h3;
    let s4 = s3 + h4;
    let s5 = s4 + h5;
    let s6 = s5 + h6;
    let s7 = s6 + h7;
    let s8 = s7 + h8;
    lemma_extend(Seq::empty(), h1);
    assert(Seq::<Coord>::empty() + h1 =~= s1);
    lemma_extend(s1, h2);
    lemma_extend(s2, h3);
    lemma_extend(s3, h4);
    lemma_extend(s4, h5);
    lemma_extend(s5, h6);
    lemma_extend(s6, h7);
    lemma_extend(s7, h8);
    assert(s8 == neighbors(rows, cols, coord));
    assert forall|n: Coord| in_grid(rows, cols, n) && touching(coord, n) implies s8.contains(
        n,
    ) by {
        let dr = n.0 - coord.0;
        let dc = n.1 - coord.1;
        assert(reached(rows, cols, coord, dr, dc, n));
    }
}

/// A cell and the cells around it all have storage positions of their own:
/// each neighbour's position lies below the number of cells, differs from
/// the cell's, and no two neighbours share one.
pub proof fn lemma_positions_apart(rows: usize, cols: usize, coord: Coord)
    requires
        in_grid(rows, cols, coord),
    ensures
        forall|i: int|
            0 <= i < neighbors(rows, cols, coord).len() ==> {
                let n = #[trigger] neighbors(rows, cols, coord)[i];
                &&& 0 <= cell_index(cols, n) < rows * cols
                &&& cell_index(cols, n) != cell_index(cols, coord)
            },
        forall|i: int, j: int|
            0 <= i < j < neighbors(rows, cols, coord).len() ==> cell_index(
                cols,
                #[trigger] neighbors(rows, cols, coord)[i],
            ) != cell_index(cols, #[trigger] neighbors(rows, cols, coord)[j]),
{
    let hood = neighbors(rows, cols, coord);
    lemma_neighbors(rows, cols, coord);
    assert forall|i: int| 0 <= i < hood.len() implies {
        let n = #[trigger] hood[i];
        &&& 0 <= cell_index(cols, n) < rows * cols
        &&& cell_index(cols, n) != cell_index(cols, coord)
    } by {
        assert(hood.contains(hood[i]));
        lemma_index_injective(rows, cols, hood[i], coord);
    }
    assert forall|i: int, j: int| 0 <= i < j < hood.len() implies cell_index(
        cols,
        #[trigger] hood[i],
    ) != cell_index(cols, #[trigger] hood[j]) by {
        assert(hood.contains(hood[i]));
        assert(hood.contains(hood[j]));
        lemma_index_injective(rows, cols, hood[i], hood[j]);
    }
}

/// How many of `v - 1`, `v`, `v + 1` lie below `bound`, for a `v` that
/// does.
pub open spec fn span(bound: usize, v: usize) -> int {
    1 + (if v > 0 {
        1int
    } else {
        0int
    }) + (if v + 1 < bound {
        1int
    } else {
        0int
    })
}

/// The cell lies in the first or the last row.
pub open spec fn on_row_edge(rows: usize, coord: Coord) -> bool {
    coord.0 == 0 || coord.0 + 1 == rows
}

/// The cell lies in the first or the last column.
pub open spec fn on_col_edge(cols: usize, coord: Coord) -> bool {
    coord.1 == 0 || coord.1 + 1 == cols
}

/// A cell has as many neighbours as the block of rows and columns around
/// it holds cells of the grid, less the cell itself.
pub proof fn lemma_neighbor_count(rows: usize, cols: usize, coord: Coord)
    requires
        in_grid(rows, cols, coord),
    ensures
        neighbors(rows, cols, coord).len() == span(rows, coord.0) * span(cols, coord.1) - 1,
{
    reveal(neighbors);
    let a = span(rows, coord.0);
    let b = span(cols, coord.1);
    assert(a * b == if a == 1 {
        b
    } else if a == 2 {
        2 * b
    } else {
        3 * b
    }) by (nonlinear_arith)
        requires
            1 <= a <= 3,
    ;
}

/// In a grid of at least two rows and two columns an inner cell has eight
/// neighbours, a corner three, and any other cell on the border five.
pub proof fn lemma_neighbor_count_by_place(rows: usize, cols: usize, coord: Coord)
    requires
        rows >= 2,
        cols >= 2,
        in_grid(rows, cols, coord),
    ensures
        neighbors(rows, cols, coord).len() == if on_row_edge(rows, coord) && on_col_edge(
            cols,
            coord,
        ) {
            3int
        } else if on_row_edge(rows, coord) || on_col_edge(cols, coord) {
            5int
        } else {
            8int
        },
{
    lemma_neighbor_count(rows, cols, coord);
    let a = span(rows, coord.0);
    let b = span(cols, coord.1);
    assert(a * b == if a == 2 {
        2 * b
    } else {
        3 * b
    }) by (nonlinear_arith)
        requires
            2 <= a <= 3,
    ;
}

} // verus!
