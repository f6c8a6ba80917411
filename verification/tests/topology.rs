use coop::agent::{Agent, Coord, Noise, Strategy};
use coop::env::Environment;

fn grid(rows: usize, cols: usize) -> Environment {
    Environment::new_with_agent_func(rows, cols, Noise { numer: 0, denom: 1 }, |c: Coord| {
        Agent::new(c, Strategy::Coop)
    })
    .unwrap()
}

#[test]
fn inner_cell_has_eight_neighbors() {
    let env = grid(3, 3);
    assert_eq!(
        env.neighbor_coord((1, 1)),
        vec![
            (0, 0),
            (0, 1),
            (0, 2),
            (1, 0),
            (1, 2),
            (2, 0),
            (2, 1),
            (2, 2)
        ]
    );
}

#[test]
fn corner_has_three_neighbors() {
    let env = grid(3, 4);
    assert_eq!(env.neighbor_coord((0, 0)), vec![(0, 1), (1, 0), (1, 1)]);
    assert_eq!(env.neighbor_coord((0, 3)), vec![(0, 2), (1, 2), (1, 3)]);
    assert_eq!(env.neighbor_coord((2, 0)), vec![(1, 0), (1, 1), (2, 1)]);
    assert_eq!(env.neighbor_coord((2, 3)), vec![(1, 2), (1, 3), (2, 2)]);
}

#[test]
fn border_cell_has_five_neighbors() {
    let env = grid(3, 4);
    assert_eq!(
        env.neighbor_coord((0, 1)),
        vec![(0, 0), (0, 2), (1, 0), (1, 1), (1, 2)]
    );
    assert_eq!(
        env.neighbor_coord((1, 0)),
        vec![(0, 0), (0, 1), (1, 1), (2, 0), (2, 1)]
    );
    assert_eq!(
        env.neighbor_coord((1, 3)),
        vec![(0, 2), (0, 3), (1, 2), (2, 2), (2, 3)]
    );
    assert_eq!(
        env.neighbor_coord((2, 2)),
        vec![(1, 1), (1, 2), (1, 3), (2, 1), (2, 3)]
    );
}

#[test]
fn neighbor_counts_over_a_whole_grid() {
    let env = grid(4, 5);
    for r in 0..4usize {
        for c in 0..5usize {
            let hood = env.neighbor_coord((r, c));
            let on_row_edge = r == 0 || r == 3;
            let on_col_edge = c == 0 || c == 4;
            let expected = if on_row_edge && on_col_edge {
                3
            } else if on_row_edge || on_col_edge {
                5
            } else {
                8
            };
            assert_eq!(hood.len(), expected);
            assert!(!hood.contains(&(r, c)));
            for n in &hood {
                assert!(n.0 < 4 && n.1 < 5);
                assert!(n.0.abs_diff(r) <= 1 && n.1.abs_diff(c) <= 1);
                assert!(env.neighbor_coord(*n).contains(&(r, c)));
            }
            let mut sorted = hood.clone();
            sorted.sort();
            sorted.dedup();
            assert_eq!(sorted, hood);
        }
    }
}

#[test]
fn narrow_grids_have_fewer_neighbors() {
    let lone = grid(1, 1);
    assert_eq!(lone.neighbor_coord((0, 0)), Vec::<Coord>::new());
    let row = grid(1, 4);
    assert_eq!(row.neighbor_coord((0, 0)), vec![(0, 1)]);
    assert_eq!(row.neighbor_coord((0, 2)), vec![(0, 1), (0, 3)]);
    let column = grid(3, 1);
    assert_eq!(column.neighbor_coord((1, 0)), vec![(0, 0), (2, 0)]);
    let pair = grid(2, 2);
    assert_eq!(pair.neighbor_coord((1, 1)), vec![(0, 0), (0, 1), (1, 0)]);
}

#[test]
fn neighbors_of_a_coordinate_outside_the_grid() {
    let env = grid(2, 2);
    assert_eq!(env.neighbor_coord((2, 0)), vec![(1, 0), (1, 1)]);
    assert_eq!(env.neighbor_coord((2, 2)), vec![(1, 1)]);
    assert_eq!(env.neighbor_coord((5, 5)), Vec::<Coord>::new());
    assert_eq!(
        env.neighbor_coord((usize::MAX, usize::MAX)),
        Vec::<Coord>::new()
    );
    assert_eq!(env.neighbor_coord((0, usize::MAX)), Vec::<Coord>::new());
}

#[test]
fn index_is_row_major() {
    let env = grid(3, 4);
    assert_eq!(env.to_vec_index((0, 0)), 0);
    assert_eq!(env.to_vec_index((0, 3)), 3);
    assert_eq!(env.to_vec_index((1, 0)), 4);
    assert_eq!(env.to_vec_index((2, 3)), 11);
}

#[test]
fn index_tells_cells_apart() {
    let env = grid(5, 7);
    let mut seen = vec![false; 35];
    for r in 0..5 {
        for c in 0..7 {
            let at = env.to_vec_index((r, c));
            assert!(at < 35);
            assert!(!seen[at]);
            seen[at] = true;
        }
    }
    assert!(seen.iter().all(|hit| *hit));
}
