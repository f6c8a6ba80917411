use coop::agent::{Action, Agent, Coord, Noise, Strategy};
use coop::env::{ConfigError, Environment, Metric};

fn quiet() -> Noise {
    Noise { numer: 0, denom: 1 }
}

fn loud() -> Noise {
    Noise { numer: 1, denom: 1 }
}

fn grid_of(rows: usize, cols: usize, noise: Noise, layout: &[Strategy]) -> Environment {
    let layout = layout.to_vec();
    Environment::new_with_agent_func(rows, cols, noise, |c: Coord| {
        Agent::new(c, layout[c.0 * cols + c.1])
    })
    .unwrap()
}

fn scores(env: &Environment) -> Vec<u64> {
    let mut all = Vec::new();
    for r in 0..env.num_row() {
        for c in 0..env.num_col() {
            all.push(env.agent((r, c)).unwrap().score);
        }
    }
    all
}

#[test]
fn payoff_table() {
    assert_eq!(Environment::score(Action::Coop, Action::Coop), 3);
    assert_eq!(Environment::score(Action::Deflect, Action::Coop), 4);
    assert_eq!(Environment::score(Action::Coop, Action::Deflect), 0);
    assert_eq!(Environment::score(Action::Deflect, Action::Deflect), 0);
}

#[test]
fn four_deflectors_earn_nothing() {
    let mut env = grid_of(2, 2, quiet(), &[Strategy::Deflect; 4]);
    let metric = env.step();
    assert_eq!(metric.coop_actions, 0);
    assert_eq!(metric.strategies, vec![(Strategy::Deflect, 4)]);
    assert_eq!(metric.max_score, vec![(Strategy::Deflect, 0)]);
    assert_eq!(
        metric.snapshot,
        vec![
            vec![Strategy::Deflect, Strategy::Deflect],
            vec![Strategy::Deflect, Strategy::Deflect]
        ]
    );
    assert_eq!(scores(&env), vec![0, 0, 0, 0]);
    for r in 0..2 {
        for c in 0..2 {
            let agent = env.agent((r, c)).unwrap();
            for n in env.neighbor_coord((r, c)) {
                assert_eq!(agent.history.get(&n), Some(&vec![Action::Deflect]));
            }
        }
    }
}

#[test]
fn cooperator_beside_deflector() {
    let mut env = grid_of(1, 2, quiet(), &[Strategy::Coop, Strategy::Deflect]);
    let first = env.step();
    assert_eq!(first.coop_actions, 1);
    assert_eq!(scores(&env), vec![0, 4]);
    assert_eq!(
        first.strategies,
        vec![(Strategy::Deflect, 1), (Strategy::Coop, 1)]
    );
    assert_eq!(
        first.max_score,
        vec![(Strategy::Deflect, 4), (Strategy::Coop, 0)]
    );
    assert_eq!(first.snapshot, vec![vec![Strategy::Coop, Strategy::Deflect]]);
    let a = env.agent((0, 0)).unwrap();
    let b = env.agent((0, 1)).unwrap();
    assert_eq!(a.history.get(&(0, 1)), Some(&vec![Action::Deflect]));
    assert_eq!(b.history.get(&(0, 0)), Some(&vec![Action::Coop]));

    let second = env.step();
    assert_eq!(
        second.snapshot,
        vec![vec![Strategy::Deflect, Strategy::Deflect]]
    );
    assert_eq!(second.strategies, vec![(Strategy::Deflect, 2)]);
    assert_eq!(second.max_score, vec![(Strategy::Deflect, 4)]);
    assert_eq!(second.coop_actions, 0);
    assert_eq!(scores(&env), vec![0, 4]);
}

#[test]
fn quiet_step_adds_the_payoffs_of_the_decisions() {
    let layout = [
        Strategy::Coop,
        Strategy::Deflect,
        Strategy::TicToc,
        Strategy::Coop,
    ];
    let mut env = grid_of(2, 2, quiet(), &layout);
    let first = env.step();
    assert_eq!(scores(&env), vec![6, 12, 6, 6]);
    assert_eq!(first.coop_actions, 9);
    assert_eq!(
        first.strategies,
        vec![
            (Strategy::Deflect, 1),
            (Strategy::TicToc, 1),
            (Strategy::Coop, 2)
        ]
    );
    assert_eq!(
        first.max_score,
        vec![
            (Strategy::Deflect, 12),
            (Strategy::TicToc, 6),
            (Strategy::Coop, 6)
        ]
    );
    assert_eq!(
        first.snapshot,
        vec![
            vec![Strategy::Coop, Strategy::Deflect],
            vec![Strategy::TicToc, Strategy::Coop]
        ]
    );

    let second = env.step();
    assert_eq!(scores(&env), vec![6, 12, 6, 6]);
    assert_eq!(second.coop_actions, 0);
    assert_eq!(second.strategies, vec![(Strategy::Deflect, 4)]);
    assert_eq!(second.max_score, vec![(Strategy::Deflect, 12)]);
}

#[test]
fn tic_toc_answers_what_it_saw() {
    let mut env = grid_of(1, 2, quiet(), &[Strategy::TicToc, Strategy::TicToc]);
    for round in 1..=3u64 {
        let metric = env.step();
        assert_eq!(metric.coop_actions, 2);
        assert_eq!(scores(&env), vec![3 * round, 3 * round]);
    }
    assert_eq!(
        env.agent((0, 0)).unwrap().history.get(&(0, 1)),
        Some(&vec![Action::Coop, Action::Coop, Action::Coop])
    );
}

#[test]
fn full_noise_turns_every_action_round() {
    let mut env = grid_of(1, 2, loud(), &[Strategy::Coop, Strategy::Deflect]);
    let metric = env.step();
    // Decided: Coop and Deflect. Played: Deflect and Coop.
    assert_eq!(metric.coop_actions, 1);
    assert_eq!(scores(&env), vec![4, 0]);
    assert_eq!(
        env.agent((0, 0)).unwrap().history.get(&(0, 1)),
        Some(&vec![Action::Coop])
    );
    assert_eq!(
        env.agent((0, 1)).unwrap().history.get(&(0, 0)),
        Some(&vec![Action::Deflect])
    );
}

#[test]
fn coop_count_does_not_depend_on_noise() {
    let layout = [
        Strategy::Coop,
        Strategy::Deflect,
        Strategy::TicToc,
        Strategy::Coop,
        Strategy::Deflect,
        Strategy::Coop,
    ];
    let noises = [
        quiet(),
        loud(),
        Noise { numer: 1, denom: 2 },
        Noise { numer: 1, denom: 10 },
    ];
    for noise in noises {
        let mut env = grid_of(2, 3, noise, &layout);
        let metric = env.step();
        // Four cells decide Coop toward each of their three neighbours:
        // the cooperators at (0,0), (1,0) and (1,2), and the TicToc at
        // (0,2), which has seen nothing yet.
        assert_eq!(metric.coop_actions, 3 + 3 + 3 + 3);
    }
}

#[test]
fn adapt_reads_the_scores_and_strategies_of_the_pass_start() {
    let strategies = [Strategy::Deflect, Strategy::Coop, Strategy::TicToc];
    let points = [10u64, 5, 0];
    let mut env = Environment::new_with_agent_func(1, 3, quiet(), |c: Coord| {
        let mut agent = Agent::new(c, strategies[c.1]);
        agent.score = points[c.1];
        agent
    })
    .unwrap();
    let metric = env.step();
    assert_eq!(
        metric.snapshot,
        vec![vec![Strategy::Deflect, Strategy::Deflect, Strategy::Coop]]
    );
    // Decided after imitation: Deflect, Deflect, Coop.
    assert_eq!(metric.coop_actions, 1);
    assert_eq!(scores(&env), vec![10, 5 + 4, 0]);
}

#[test]
fn random_agents_stay_within_the_rules() {
    let mut env = grid_of(3, 3, Noise { numer: 1, denom: 4 }, &[Strategy::Random; 9]);
    let mut before = scores(&env);
    for round in 1..=5usize {
        let metric = env.step();
        assert!(metric.coop_actions <= 40);
        assert_eq!(metric.strategies, vec![(Strategy::Random, 9)]);
        let after = scores(&env);
        for (cell, (old, new)) in before.iter().zip(after.iter()).enumerate() {
            let hood = env.neighbor_coord((cell / 3, cell % 3)).len() as u64;
            assert!(new >= old);
            assert!(*new <= old + 4 * hood);
        }
        for r in 0..3 {
            for c in 0..3 {
                let agent = env.agent((r, c)).unwrap();
                for n in env.neighbor_coord((r, c)) {
                    assert_eq!(agent.history.get(&n).unwrap().len(), round);
                }
                assert!(agent.history.get(&(r, c)).is_none());
            }
        }
        let top = *after.iter().max().unwrap();
        assert_eq!(metric.max_score, vec![(Strategy::Random, top)]);
        before = after;
    }
}

#[test]
fn default_grid_holds_deflect_and_tic_toc() {
    let mut env = Environment::new(4, 5, Noise { numer: 1, denom: 10 }).unwrap();
    assert_eq!(env.num_row(), 4);
    assert_eq!(env.num_col(), 5);
    assert_eq!(env.noise(), Noise { numer: 1, denom: 10 });
    for r in 0..4 {
        for c in 0..5 {
            let agent = env.agent((r, c)).unwrap();
            assert_eq!(agent.coord, (r, c));
            assert_eq!(agent.score, 0);
            assert!(agent.strategy == Strategy::Deflect || agent.strategy == Strategy::TicToc);
        }
    }
    assert!(env.has_room());
    let metric = env.step();
    let total: usize = metric.strategies.iter().map(|entry| entry.1).sum();
    assert_eq!(total, 20);
    assert_eq!(metric.snapshot.len(), 4);
    for row in &metric.snapshot {
        assert_eq!(row.len(), 5);
    }
    for entry in &metric.strategies {
        assert!(entry.0 == Strategy::Deflect || entry.0 == Strategy::TicToc);
    }
    assert_eq!(metric.strategies.len(), metric.max_score.len());
}

#[test]
fn metric_is_a_value_of_its_own() {
    let mut env = grid_of(1, 2, quiet(), &[Strategy::Coop, Strategy::Deflect]);
    let first: Metric = env.step();
    let kept = first.clone();
    let _second = env.step();
    assert_eq!(kept.snapshot, vec![vec![Strategy::Coop, Strategy::Deflect]]);
    assert_eq!(kept.coop_actions, 1);
    assert_eq!(first.strategies, kept.strategies);
    assert_eq!(first.max_score, kept.max_score);
}

#[test]
fn empty_grid_is_refused() {
    assert_eq!(
        Environment::new(0, 3, quiet()).err(),
        Some(ConfigError::EmptyGrid)
    );
    assert_eq!(
        Environment::new(3, 0, quiet()).err(),
        Some(ConfigError::EmptyGrid)
    );
    assert_eq!(
        Environment::new(0, 0, Noise { numer: 2, denom: 1 }).err(),
        Some(ConfigError::EmptyGrid)
    );
}

#[test]
fn noise_out_of_range_is_refused() {
    assert_eq!(
        Environment::new(2, 2, Noise { numer: 3, denom: 2 }).err(),
        Some(ConfigError::NoiseOutOfRange)
    );
    assert_eq!(
        Environment::new(2, 2, Noise { numer: 0, denom: 0 }).err(),
        Some(ConfigError::NoiseOutOfRange)
    );
}

#[test]
fn oversized_grid_is_refused() {
    assert_eq!(
        Environment::new(usize::MAX, 2, quiet()).err(),
        Some(ConfigError::GridTooLarge)
    );
    assert_eq!(
        Environment::new(usize::MAX / 8 + 1, 1, quiet()).err(),
        Some(ConfigError::GridTooLarge)
    );
}

#[test]
fn misplaced_agent_is_refused() {
    let made = Environment::new_with_agent_func(2, 2, quiet(), |c: Coord| {
        Agent::new((c.1, c.0), Strategy::Coop)
    });
    assert_eq!(made.err(), Some(ConfigError::MisplacedAgent));
}

#[test]
fn factory_is_called_once_for_each_cell_in_row_major_order() {
    let mut seen: Vec<Coord> = Vec::new();
    let env = Environment::new_with_agent_func(2, 3, quiet(), |c: Coord| {
        seen.push(c);
        Agent::new(c, Strategy::TicToc)
    })
    .unwrap();
    assert_eq!(seen, vec![(0, 0), (0, 1), (0, 2), (1, 0), (1, 1), (1, 2)]);
    assert_eq!(env.num_row(), 2);
    assert_eq!(env.num_col(), 3);
    assert!(env.agent((2, 0)).is_none());
    assert!(env.agent((0, 3)).is_none());
}

#[test]
fn room_runs_out_near_the_top_of_the_score() {
    let env = Environment::new_with_agent_func(1, 2, quiet(), |c: Coord| {
        let mut agent = Agent::new(c, Strategy::Coop);
        agent.score = if c.1 == 0 { u64::MAX - 32 } else { u64::MAX - 31 };
        agent
    })
    .unwrap();
    assert!(!env.has_room());
    let fine = Environment::new_with_agent_func(1, 2, quiet(), |c: Coord| {
        let mut agent = Agent::new(c, Strategy::Coop);
        agent.score = u64::MAX - 32;
        agent
    })
    .unwrap();
    assert!(fine.has_room());
}

#[test]
fn wide_grid_keeps_its_books() {
    let mut env = Environment::new(50, 50, Noise { numer: 1, denom: 10 }).unwrap();
    let mut last = None;
    for _ in 0..20 {
        assert!(env.has_room());
        last = Some(env.step());
    }
    let metric = last.unwrap();
    let total: usize = metric.strategies.iter().map(|entry| entry.1).sum();
    assert_eq!(total, 2500);
    // 4 corners with 3 neighbours, 192 border cells with 5, 2304 inner
    // cells with 8.
    assert!(metric.coop_actions <= 4 * 3 + 192 * 5 + 2304 * 8);
    let inner = env.agent((25, 25)).unwrap();
    for n in env.neighbor_coord((25, 25)) {
        assert_eq!(inner.history.get(&n).unwrap().len(), 20);
    }
    assert!(inner.score <= 20 * 32);
}

#[test]
fn lone_cell_meets_nobody() {
    let mut env = grid_of(1, 1, loud(), &[Strategy::Coop]);
    for _ in 0..3 {
        let metric = env.step();
        assert_eq!(metric.coop_actions, 0);
        assert_eq!(metric.strategies, vec![(Strategy::Coop, 1)]);
        assert_eq!(metric.max_score, vec![(Strategy::Coop, 0)]);
        assert_eq!(metric.snapshot, vec![vec![Strategy::Coop]]);
    }
    let agent = env.agent((0, 0)).unwrap();
    assert_eq!(agent.score, 0);
    assert_eq!(agent.strategy, Strategy::Coop);
}
