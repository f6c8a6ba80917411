use coop::agent::{Action, Agent, History, Noise, Strategy};

const NEVER: Noise = Noise { numer: 0, denom: 1 };
const ALWAYS: Noise = Noise { numer: 1, denom: 1 };

#[test]
fn test_strategy() {
    let deflect_history = vec![Action::Deflect];
    let coop_history = vec![Action::Coop];
    for history in [deflect_history, coop_history] {
        assert_eq!(
            Strategy::TicToc.get_action(&history),
            *history.last().unwrap()
        );
        assert_eq!(Strategy::Coop.get_action(&history), Action::Coop);
        assert_eq!(Strategy::Deflect.get_action(&history), Action::Deflect);
    }
}

#[test]
fn test_agent() {
    let mut agent = Agent::new((0, 0), Strategy::TicToc);
    let mut other_agent = Agent::new((0, 1), Strategy::Deflect);

    assert_eq!(agent.get_action(&other_agent), Action::Coop);
    assert_eq!(other_agent.get_action(&agent), Action::Deflect);

    agent.score(&other_agent, Action::Deflect, 0);
    other_agent.score(&agent, Action::Coop, 3);

    assert_eq!(agent.get_action(&other_agent), Action::Deflect);
    assert_eq!(other_agent.get_action(&agent), Action::Deflect);

    agent.adapt(vec![&other_agent]);
    assert_eq!(agent.strategy, Strategy::Deflect);
}

#[test]
fn fixed_strategies_ignore_the_history() {
    let histories = vec![
        vec![],
        vec![Action::Coop],
        vec![Action::Deflect],
        vec![Action::Coop, Action::Deflect, Action::Deflect],
        vec![Action::Deflect, Action::Deflect, Action::Coop],
    ];
    for history in &histories {
        assert_eq!(Strategy::Deflect.get_action(history), Action::Deflect);
        assert_eq!(Strategy::Coop.get_action(history), Action::Coop);
        for coin in [Action::Coop, Action::Deflect] {
            assert_eq!(Strategy::Deflect.decide(history, coin), Action::Deflect);
            assert_eq!(Strategy::Coop.decide(history, coin), Action::Coop);
        }
    }
}

#[test]
fn tic_toc_repeats_the_last_action() {
    assert_eq!(Strategy::TicToc.get_action(&vec![]), Action::Coop);
    assert_eq!(
        Strategy::TicToc.get_action(&vec![Action::Coop, Action::Deflect]),
        Action::Deflect
    );
    assert_eq!(
        Strategy::TicToc.get_action(&vec![Action::Deflect, Action::Deflect, Action::Coop]),
        Action::Coop
    );
    assert_eq!(
        Strategy::TicToc.decide(&vec![Action::Coop, Action::Deflect], Action::Coop),
        Action::Deflect
    );
}

#[test]
fn random_follows_the_draw() {
    let history = vec![Action::Deflect];
    assert_eq!(Strategy::Random.decide(&history, Action::Coop), Action::Coop);
    assert_eq!(
        Strategy::Random.decide(&history, Action::Deflect),
        Action::Deflect
    );
    assert_eq!(Strategy::Random.decide(&vec![], Action::Deflect), Action::Deflect);
}

#[test]
fn random_decides_on_one_of_the_two_actions() {
    let mut coops = 0;
    let mut deflects = 0;
    for _ in 0..400 {
        match Strategy::Random.get_action(&vec![Action::Coop]) {
            Action::Coop => coops += 1,
            Action::Deflect => deflects += 1,
        }
    }
    assert_eq!(coops + deflects, 400);
    assert!(coops > 0);
    assert!(deflects > 0);
}

#[test]
fn strategies_are_ordered_canonically() {
    assert!(Strategy::Deflect < Strategy::TicToc);
    assert!(Strategy::TicToc < Strategy::Coop);
    assert!(Strategy::Coop < Strategy::Random);
}

#[test]
fn apply_flip_turns_the_action_round() {
    assert_eq!(Action::Coop.apply_flip(false), Action::Coop);
    assert_eq!(Action::Coop.apply_flip(true), Action::Deflect);
    assert_eq!(Action::Deflect.apply_flip(false), Action::Deflect);
    assert_eq!(Action::Deflect.apply_flip(true), Action::Coop);
}

#[test]
fn no_noise_never_flips() {
    for _ in 0..200 {
        assert_eq!(Action::Coop.with_noise(NEVER), Action::Coop);
        assert_eq!(Action::Deflect.with_noise(NEVER), Action::Deflect);
        assert_eq!(
            Action::Coop.with_noise(Noise { numer: 0, denom: 1000 }),
            Action::Coop
        );
    }
}

#[test]
fn full_noise_always_flips() {
    for _ in 0..200 {
        assert_eq!(Action::Coop.with_noise(ALWAYS), Action::Deflect);
        assert_eq!(Action::Deflect.with_noise(ALWAYS), Action::Coop);
        assert_eq!(
            Action::Deflect.with_noise(Noise { numer: 1000, denom: 1000 }),
            Action::Coop
        );
    }
}

#[test]
fn half_noise_flips_sometimes() {
    let half = Noise { numer: 1, denom: 2 };
    let mut flipped = 0;
    for _ in 0..400 {
        if Action::Coop.with_noise(half) == Action::Deflect {
            flipped += 1;
        }
    }
    assert!(flipped > 0);
    assert!(flipped < 400);
}

#[test]
fn noise_validity() {
    assert!(NEVER.is_valid());
    assert!(ALWAYS.is_valid());
    assert!(Noise { numer: 1, denom: 10 }.is_valid());
    assert!(!Noise { numer: 0, denom: 0 }.is_valid());
    assert!(!Noise { numer: 3, denom: 2 }.is_valid());
}

#[test]
fn new_agent_starts_from_nothing() {
    let agent = Agent::new((3, 4), Strategy::Coop);
    assert_eq!(agent.coord, (3, 4));
    assert_eq!(agent.strategy, Strategy::Coop);
    assert_eq!(agent.score, 0);
    assert!(agent.history.get(&(3, 5)).is_none());
}

#[test]
fn random_agent_takes_a_listed_strategy() {
    let only = vec![Strategy::Coop];
    for _ in 0..50 {
        let agent = Agent::random((1, 2), &only);
        assert_eq!(agent.strategy, Strategy::Coop);
        assert_eq!(agent.coord, (1, 2));
        assert_eq!(agent.score, 0);
    }
    let two = vec![Strategy::Deflect, Strategy::TicToc];
    let mut deflect = 0;
    let mut tic_toc = 0;
    for _ in 0..400 {
        match Agent::random((0, 0), &two).strategy {
            Strategy::Deflect => deflect += 1,
            Strategy::TicToc => tic_toc += 1,
            other => panic!("{:?} is not in the list", other),
        }
    }
    assert!(deflect > 0);
    assert!(tic_toc > 0);
}

#[test]
fn score_books_history_and_payoff() {
    let mut agent = Agent::new((0, 0), Strategy::TicToc);
    let left = Agent::new((0, 1), Strategy::Coop);
    let below = Agent::new((1, 0), Strategy::Deflect);
    agent.score(&left, Action::Coop, 3);
    agent.score(&below, Action::Deflect, 0);
    agent.score(&left, Action::Deflect, 4);
    assert_eq!(agent.score, 7);
    assert_eq!(
        agent.history.get(&(0, 1)),
        Some(&vec![Action::Coop, Action::Deflect])
    );
    assert_eq!(agent.history.get(&(1, 0)), Some(&vec![Action::Deflect]));
    assert_eq!(agent.history.get(&(1, 1)), None);
    assert_eq!(agent.coord, (0, 0));
    assert_eq!(agent.strategy, Strategy::TicToc);
    assert_eq!(left.score, 0);
    assert!(left.history.get(&(0, 0)).is_none());
}

#[test]
fn record_and_score_goes_by_the_coordinate() {
    let mut agent = Agent::new((2, 2), Strategy::TicToc);
    agent.record_and_score((2, 3), Action::Deflect, 0);
    agent.record_and_score((2, 3), Action::Coop, 3);
    assert_eq!(agent.score, 3);
    assert_eq!(
        agent.history.get(&(2, 3)),
        Some(&vec![Action::Deflect, Action::Coop])
    );
    let other = Agent::new((2, 3), Strategy::Coop);
    assert_eq!(agent.get_action(&other), Action::Coop);
}

#[test]
fn history_keeps_the_order_of_what_was_seen() {
    let mut history = History::new();
    assert!(history.get(&(0, 0)).is_none());
    history.record((0, 0), Action::Coop);
    history.record((5, 5), Action::Deflect);
    history.record((0, 0), Action::Deflect);
    history.record((0, 0), Action::Coop);
    assert_eq!(
        history.get(&(0, 0)),
        Some(&vec![Action::Coop, Action::Deflect, Action::Coop])
    );
    assert_eq!(history.get(&(5, 5)), Some(&vec![Action::Deflect]));
    assert_eq!(history.get(&(5, 0)), None);
    let copy = history.clone();
    history.record((5, 5), Action::Coop);
    assert_eq!(copy.get(&(5, 5)), Some(&vec![Action::Deflect]));
    assert_eq!(
        history.get(&(5, 5)),
        Some(&vec![Action::Deflect, Action::Coop])
    );
}

fn scored(coord: (usize, usize), strategy: Strategy, score: u64) -> Agent {
    let mut agent = Agent::new(coord, strategy);
    agent.score = score;
    agent
}

#[test]
fn adapt_takes_the_strategy_of_a_better_neighbor() {
    let mut agent = scored((1, 1), Strategy::Coop, 5);
    let low = scored((0, 0), Strategy::Deflect, 2);
    let high = scored((0, 1), Strategy::TicToc, 9);
    let mid = scored((0, 2), Strategy::Random, 7);
    agent.adapt(vec![&low, &high, &mid]);
    assert_eq!(agent.strategy, Strategy::TicToc);
    assert_eq!(agent.score, 5);
    assert_eq!(agent.coord, (1, 1));
}

#[test]
fn adapt_keeps_the_strategy_when_nobody_is_better() {
    let mut agent = scored((1, 1), Strategy::Coop, 9);
    let low = scored((0, 0), Strategy::Deflect, 2);
    let equal = scored((0, 1), Strategy::TicToc, 9);
    agent.adapt(vec![&low, &equal]);
    assert_eq!(agent.strategy, Strategy::Coop);
    agent.adapt(vec![&equal]);
    assert_eq!(agent.strategy, Strategy::Coop);
}

#[test]
fn adapt_without_neighbors_changes_nothing() {
    let mut agent = scored((0, 0), Strategy::Random, 0);
    agent.adapt(vec![]);
    assert_eq!(agent.strategy, Strategy::Random);
    assert_eq!(agent.score, 0);
}

#[test]
fn adapt_breaks_ties_by_the_last_neighbor() {
    let mut agent = scored((1, 1), Strategy::Coop, 1);
    let first = scored((0, 0), Strategy::Deflect, 8);
    let second = scored((0, 1), Strategy::TicToc, 8);
    let third = scored((0, 2), Strategy::Random, 3);
    agent.adapt(vec![&first, &second, &third]);
    assert_eq!(agent.strategy, Strategy::TicToc);
    let mut again = scored((1, 1), Strategy::Coop, 1);
    again.adapt(vec![&second, &third, &first]);
    assert_eq!(again.strategy, Strategy::Deflect);
}

#[test]
fn imitated_reports_without_changing() {
    let agent = scored((1, 1), Strategy::Coop, 1);
    let better = scored((0, 0), Strategy::Deflect, 2);
    assert_eq!(agent.imitated(&vec![&better]), Strategy::Deflect);
    assert_eq!(agent.imitated(&vec![]), Strategy::Coop);
    assert_eq!(agent.strategy, Strategy::Coop);
}

#[test]
fn clone_copies_the_whole_agent() {
    let mut agent = scored((1, 1), Strategy::TicToc, 4);
    agent.record_and_score((1, 2), Action::Deflect, 0);
    let copy = agent.clone();
    agent.record_and_score((1, 2), Action::Coop, 3);
    assert_eq!(copy.coord, (1, 1));
    assert_eq!(copy.strategy, Strategy::TicToc);
    assert_eq!(copy.score, 4);
    assert_eq!(copy.history.get(&(1, 2)), Some(&vec![Action::Deflect]));
    assert_eq!(agent.score, 7);
}
