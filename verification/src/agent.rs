use crate::random::{gen_ratio, pick_one};
use vstd::prelude::*;

verus! {

/// Row and column of one grid cell.
pub type Coord = (usize, usize);

/// One move of the two-action game.
#[derive(Clone, Copy, Eq, PartialEq, Debug, Structural)]
pub enum Action {
    Coop,
    Deflect,
}

/// A flip probability, held as the ratio `numer / denom`.
#[derive(Clone, Copy, Eq, PartialEq, Debug, Structural)]
pub struct Noise {
    pub numer: u32,
    pub denom: u32,
}

impl Noise {
    /// The ratio names a probability between 0 and 1.
    pub open spec fn in_range(self) -> bool {
        self.denom > 0 && self.numer <= self.denom
    }

    /// Probability 0: no action is ever flipped.
    pub open spec fn is_never(self) -> bool {
        self.numer == 0
    }

    /// Probability 1: every action is flipped.
    pub open spec fn is_always(self) -> bool {
        self.numer == self.denom
    }

    /// Whether a flip may happen under this noise (`flip == true`) or may
    /// fail to happen (`flip == false`).
    pub open spec fn allows(self, flip: bool) -> bool {
        &&& self.is_never() ==> !flip
        &&& self.is_always() ==> flip
    }

    pub fn is_valid(&self) -> (ok: bool)
        ensures
            ok == self.in_range(),
    {
        self.denom > 0 && self.numer <= self.denom
    }
}

impl Action {
    /// The other action.
    pub open spec fn flipped(self) -> Action {
        match self {
            Action::Coop => Action::Deflect,
            Action::Deflect => Action::Coop,
        }
    }

    /// The action that is played when `self` was decided and the noise draw
    /// came out as `flip`.
    pub open spec fn perturbed(self, flip: bool) -> Action {
        if flip {
            self.flipped()
        } else {
            self
        }
    }

    /// Turns the decided action into the played one, given the outcome of the
    /// noise draw.
    pub fn apply_flip(self, flip: bool) -> (played: Action)
        ensures
            played == self.perturbed(flip),
    {
        if flip {
            match self {
                Action::Coop => Action::Deflect,
                Action::Deflect => Action::Coop,
            }
        } else {
            self
        }
    }

    /// Plays the action under noise: with probability `prob` the opposite
    /// action comes out, drawn afresh on every call.
    pub fn with_noise(&self, prob: Noise) -> (played: Action)
        requires
            prob.in_range(),
        ensures
            prob.is_never() ==> played == *self,
            prob.is_always() ==> played == self.flipped(),
    {
        let mut rng = rand::thread_rng();
        let flip = gen_ratio(&mut rng, prob.numer, prob.denom);
        self.apply_flip(flip)
    }
}

/// A decision policy: how an agent answers one opponent, given that
/// opponent's past actions toward it.
#[derive(Clone, Copy, Eq, PartialEq, Debug, Hash, PartialOrd, Ord, Structural)]
pub enum Strategy {
    Deflect,
    TicToc,
    Coop,
    Random,
}

impl Strategy {
    /// Position in the canonical order of the strategies.
    pub open spec fn rank(self) -> int {
        match self {
            Strategy::Deflect => 0,
            Strategy::TicToc => 1,
            Strategy::Coop => 2,
            Strategy::Random => 3,
        }
    }

    /// The action the strategy decides on after `history`, where `coin` is
    /// the outcome of the fair draw that only `Random` looks at.
    pub open spec fn choice(self, history: Seq<Action>, coin: Action) -> Action {
        match self {
            Strategy::Deflect => Action::Deflect,
            Strategy::TicToc => if history.len() > 0 {
                history.last()
            } else {
                Action::Coop
            },
            Strategy::Coop => Action::Coop,
            Strategy::Random => coin,
        }
    }

    /// Decides on an action, given the outcome `coin` of the fair draw.
    pub fn decide(&self, history: &Vec<Action>, coin: Action) -> (action: Action)
        ensures
            action == self.choice(history@, coin),
    {
        match *self {
            Strategy::Deflect => Action::Deflect,
            Strategy::TicToc => {
                let n = history.len();
                if n > 0 {
                    history[n - 1]
                } else {
                    Action::Coop
                }
            },
            Strategy::Coop => Action::Coop,
            Strategy::Random => coin,
        }
    }

    /// Decides on an action; `Random` draws it afresh on every call.
    pub fn get_action(&self, history: &Vec<Action>) -> (action: Action)
        ensures
            *self != Strategy::Random ==> action == self.choice(history@, Action::Coop),
    {
        match *self {
            Strategy::Random => {
                let mut rng = rand::thread_rng();
                let faces = [Action::Coop, Action::Deflect];
                let coin = pick_one(&mut rng, faces.as_slice());
                self.decide(history, coin.unwrap())
            },
            _ => self.decide(history, Action::Coop),
        }
    }
}

/// What an agent has seen so far: for each opponent it has met, that
/// opponent's actions toward it, oldest first.
#[derive(Debug)]
pub struct History {
    entries: Vec<(Coord, Vec<Action>)>,
}

/// Some entry of `entries` is kept for `coord`.
spec fn listed(entries: Seq<(Coord, Vec<Action>)>, coord: Coord) -> bool {
    exists|i: int| 0 <= i < entries.len() && entries[i].0 == coord
}

/// No coordinate has two entries.
spec fn all_distinct(entries: Seq<(Coord, Vec<Action>)>) -> bool {
    forall|i: int, j: int| 0 <= i < j < entries.len() ==> entries[i].0 != entries[j].0
}

/// The entries read as a map from coordinate to the actions kept for it.
spec fn as_map(entries: Seq<(Coord, Vec<Action>)>) -> Map<Coord, Seq<Action>> {
    Map::new(
        |c: Coord| listed(entries, c),
        |c: Coord| entries[choose|i: int| 0 <= i < entries.len() && entries[i].0 == c].1@,
    )
}

/// A map that holds exactly what the entries hold is the map they are read
/// as.
proof fn lemma_as_map_is(entries: Seq<(Coord, Vec<Action>)>, m: Map<Coord, Seq<Action>>)
    requires
        all_distinct(entries),
        forall|i: int|
            0 <= i < entries.len() ==> m.dom().contains(#[trigger] entries[i].0) && m[entries[i].0]
                == entries[i].1@,
        forall|c: Coord| m.dom().contains(c) ==> listed(entries, c),
    ensures
        as_map(entries) == m,
{
    assert forall|c: Coord| as_map(entries).dom().contains(c) implies as_map(entries)[c]
        == m[c] by {
        let i = choose|i: int| 0 <= i < entries.len() && entries[i].0 == c;
        assert(m[entries[i].0] == entries[i].1@);
    }
    assert forall|c: Coord| as_map(entries).dom().contains(c) implies m.dom().contains(c) by {
        let i = choose|i: int| 0 <= i < entries.len() && entries[i].0 == c;
        assert(m.dom().contains(entries[i].0));
    }
    assert(as_map(entries) =~= m);
}

/// Each entry is found again in the map that the entries are read as.
proof fn lemma_as_map_at(entries: Seq<(Coord, Vec<Action>)>, i: int)
    requires
        all_distinct(entries),
        0 <= i < entries.len(),
    ensures
        as_map(entries).dom().contains(entries[i].0),
        as_map(entries)[entries[i].0] == entries[i].1@,
{
    let c = entries[i].0;
    assert(listed(entries, c));
    let j = choose|j: int| 0 <= j < entries.len() && entries[j].0 == c;
    assert(j == i);
}

impl View for History {
    type V = Map<Coord, Seq<Action>>;

    closed spec fn view(&self) -> Map<Coord, Seq<Action>> {
        as_map(self.entries@)
    }
}

impl History {
    /// No opponent is listed twice.
    #[verifier::type_invariant]
    spec fn distinct(self) -> bool {
        all_distinct(self.entries@)
    }

    /// The actions seen from the opponent at `coord`; none if it was never
    /// met.
    pub open spec fn past(&self, coord: Coord) -> Seq<Action> {
        if self@.dom().contains(coord) {
            self@[coord]
        } else {
            Seq::empty()
        }
    }

    /// Index of the entry kept for `coord`, if there is one.
    fn find(&self, coord: Coord) -> (at: Option<usize>)
        ensures
            match at {
                Some(i) => i < self.entries@.len() && self.entries@[i as int].0 == coord,
                None => forall|i: int| 0 <= i < self.entries@.len() ==> self.entries@[i].0 != coord,
            },
    {
        let mut i: usize = 0;
        while i < self.entries.len()
            invariant
                i <= self.entries@.len(),
                forall|j: int| 0 <= j < i ==> self.entries@[j].0 != coord,
            decreases self.entries@.len() - i,
        {
            if self.entries[i].0.0 == coord.0 && self.entries[i].0.1 == coord.1 {
                return Some(i);
            }
            i += 1;
        }
        None
    }

    pub fn new() -> (history: History)
        ensures
            history@ == Map::<Coord, Seq<Action>>::empty(),
    {
        let history = History { entries: Vec::new() };
        assert(history@ =~= Map::<Coord, Seq<Action>>::empty());
        history
    }

    /// The actions seen from the opponent at `coord`, if it was ever met.
    pub fn get(&self, coord: &Coord) -> (seen: Option<&Vec<Action>>)
        ensures
            match seen {
                Some(actions) => self@.dom().contains(*coord) && actions@ == self@[*coord],
                None => !self@.dom().contains(*coord),
            },
    {
        proof {
            use_type_invariant(self);
        }
        match self.find(*coord) {
            Some(i) => Some(&self.entries[i].1),
            None => None,
        }
    }

    /// Appends `action` to what was seen from the opponent at `coord`.
    pub fn record(&mut self, coord: Coord, action: Action)
        ensures
            final(self)@ == old(self)@.insert(coord, old(self).past(coord).push(action)),
    {
        proof {
            use_type_invariant(&*self);
        }
        let ghost before = *self;
        let at = self.find(coord);
        let mut entries: Vec<(Coord, Vec<Action>)> = Vec::new();
        std::mem::swap(&mut self.entries, &mut entries);
        match at {
            Some(i) => {
                entries[i].1.push(action);
            },
            None => {
                let mut seen: Vec<Action> = Vec::new();
                seen.push(action);
                entries.push((coord, seen));
            },
        }
        proof {
            let was = before.entries@;
            let now = entries@;
            let goal = before@.insert(coord, before.past(coord).push(action));
            assert forall|i: int| 0 <= i < was.len() implies as_map(was).dom().contains(
                #[trigger] was[i].0,
            ) && as_map(was)[was[i].0] == was[i].1@ by {
                lemma_as_map_at(was, i);
            }
            assert forall|i: int| 0 <= i < now.len() implies goal.dom().contains(
                #[trigger] now[i].0,
            ) && goal[now[i].0] == now[i].1@ by {
                if i < was.len() {
                    assert(now[i].0 == was[i].0);
                }
            }
            assert forall|c: Coord| goal.dom().contains(c) implies listed(now, c) by {
                if c == coord {
                    match at {
                        Some(i) => {
                            assert(now[i as int].0 == c);
                        },
                        None => {
                            assert(now[was.len() as int].0 == c);
                        },
                    }
                } else {
                    let i = choose|i: int| 0 <= i < was.len() && was[i].0 == c;
                    assert(now[i].0 == c);
                }
            }
            lemma_as_map_is(now, goal);
        }
        self.entries = entries;
    }
}

impl Clone for History {
    fn clone(&self) -> (copy: History)
        ensures
            copy@ == self@,
    {
        proof {
            use_type_invariant(self);
        }
        let mut entries: Vec<(Coord, Vec<Action>)> = Vec::new();
        let mut i: usize = 0;
        while i < self.entries.len()
            invariant
                i <= self.entries@.len(),
                entries@.len() == i,
                forall|j: int|
                    0 <= j < i ==> entries@[j].0 == self.entries@[j].0 && entries@[j].1@
                        == self.entries@[j].1@,
            decreases self.entries@.len() - i,
        {
            let seen = self.entries[i].1.clone();
            assert(seen@ =~= self.entries@[i as int].1@);
            entries.push((self.entries[i].0, seen));
            i += 1;
        }
        proof {
            let was = self.entries@;
            assert forall|i: int| 0 <= i < entries@.len() implies self@.dom().contains(
                #[trigger] entries@[i].0,
            ) && self@[entries@[i].0] == entries@[i].1@ by {
                lemma_as_map_at(was, i);
            }
            assert forall|c: Coord| self@.dom().contains(c) implies listed(entries@, c) by {
                let i = choose|i: int| 0 <= i < was.len() && was[i].0 == c;
                assert(entries@[i].0 == c);
            }
            lemma_as_map_is(entries@, self@);
        }
        History { entries }
    }
}

/// The state of one grid cell.
#[derive(Debug)]
pub struct Agent {
    pub coord: Coord,
    pub history: History,
    pub strategy: Strategy,
    pub score: u64,
}

impl Clone for Agent {
    fn clone(&self) -> (copy: Agent)
        ensures
            copy.coord == self.coord,
            copy.history@ == self.history@,
            copy.strategy == self.strategy,
            copy.score == self.score,
    {
        Agent {
            coord: self.coord,
            history: self.history.clone(),
            strategy: self.strategy,
            score: self.score,
        }
    }
}

/// Index of the entry of `scores` that imitation looks at: the greatest one,
/// and among equally great entries the last.
pub open spec fn best(scores: Seq<u64>) -> int
    decreases scores.len(),
{
    if scores.len() <= 1 {
        0
    } else {
        let earlier = best(scores.drop_last());
        if scores.last() >= scores[earlier] {
            scores.len() - 1
        } else {
            earlier
        }
    }
}

/// The strategy an agent holds after imitation, when it held `own` with
/// score `score` and its neighbours are `rivals`: that of the best-scoring
/// neighbour if that one scores strictly more, else its own.
pub open spec fn imitate(own: Strategy, score: u64, rivals: Seq<Agent>) -> Strategy {
    let at = best(rivals.map_values(|a: Agent| a.score));
    if rivals.len() > 0 && rivals[at].score > score {
        rivals[at].strategy
    } else {
        own
    }
}

/// `best` names an entry that none exceeds, and the last such entry.
pub proof fn lemma_best(scores: Seq<u64>)
    requires
        scores.len() > 0,
    ensures
        0 <= best(scores) < scores.len(),
        forall|j: int| 0 <= j < scores.len() ==> #[trigger] scores[j] <= scores[best(scores)],
        forall|j: int|
            best(scores) < j < scores.len() ==> #[trigger] scores[j] < scores[best(scores)],
    decreases scores.len(),
{
    if scores.len() > 1 {
        let front = scores.drop_last();
        lemma_best(front);
        assert forall|j: int| 0 <= j < scores.len() implies #[trigger] scores[j] <= scores[best(
            scores,
        )] by {
            if j < front.len() {
                assert(front[j] == scores[j]);
            }
        }
        assert forall|j: int| best(scores) < j < scores.len() implies #[trigger] scores[j]
            < scores[best(scores)] by {
            if j < front.len() {
                assert(front[j] == scores[j]);
            }
        }
    }
}

/// Imitation changes the strategy exactly when some neighbour scores
/// strictly more than the agent itself, and then to the strategy of a
/// neighbour whose score none of the others exceeds. An agent without
/// neighbours keeps its strategy.
pub proof fn lemma_imitate(own: Strategy, score: u64, rivals: Seq<Agent>)
    ensures
        (exists|i: int| 0 <= i < rivals.len() && rivals[i].score > score) ==> exists|b: int|
            {
                &&& 0 <= b < rivals.len()
                &&& forall|j: int|
                    0 <= j < rivals.len() ==> (#[trigger] rivals[j]).score <= rivals[b].score
                &&& imitate(own, score, rivals) == rivals[b].strategy
            },
        (forall|i: int| 0 <= i < rivals.len() ==> (#[trigger] rivals[i]).score <= score)
            ==> imitate(own, score, rivals) == own,
        rivals.len() == 0 ==> imitate(own, score, rivals) == own,
{
    if rivals.len() > 0 {
        let scores = rivals.map_values(|a: Agent| a.score);
        lemma_best(scores);
        let b = best(scores);
        assert(scores[b] == rivals[b].score);
        assert forall|j: int| 0 <= j < rivals.len() implies (#[trigger] rivals[j]).score
            <= rivals[b].score by {
            assert(scores[j] == rivals[j].score);
        }
        if exists|i: int| 0 <= i < rivals.len() && rivals[i].score > score {
            let i = choose|i: int| 0 <= i < rivals.len() && rivals[i].score > score;
            assert(rivals[i].score <= rivals[b].score);
            assert(imitate(own, score, rivals) == rivals[b].strategy);
        }
    }
}

/// `Deflect` and `Coop` decide the same whatever the history and whatever
/// the fair draw shows.
pub proof fn lemma_fixed_strategies(
    history: Seq<Action>,
    coin: Action,
    other_history: Seq<Action>,
    other_coin: Action,
)
    ensures
        Strategy::Deflect.choice(history, coin) == Strategy::Deflect.choice(
            other_history,
            other_coin,
        ),
        Strategy::Deflect.choice(history, coin) == Action::Deflect,
        Strategy::Coop.choice(history, coin) == Strategy::Coop.choice(other_history, other_coin),
        Strategy::Coop.choice(history, coin) == Action::Coop,
{
}

/// `TicToc` repeats the last action of the history, and decides `Coop` on
/// an empty one.
pub proof fn lemma_tic_toc(history: Seq<Action>, last: Action, coin: Action)
    ensures
        Strategy::TicToc.choice(history.push(last), coin) == last,
        Strategy::TicToc.choice(Seq::empty(), coin) == Action::Coop,
{
}

/// The agents behind a list of references.
pub open spec fn pointees(refs: Seq<&Agent>) -> Seq<Agent> {
    refs.map_values(|a: &Agent| *a)
}

impl Agent {
    /// The strategy this agent will hold once it has looked at `neighbors`.
    pub fn imitated(&self, neighbors: &Vec<&Agent>) -> (next: Strategy)
        ensures
            next == imitate(self.strategy, self.score, pointees(neighbors@)),
    {
        let n = neighbors.len();
        if n == 0 {
            return self.strategy;
        }
        let ghost scores = pointees(neighbors@).map_values(|a: Agent| a.score);
        let mut at: usize = 0;
        let mut k: usize = 1;
        assert(best(scores.take(1)) == 0);
        while k < n
            invariant
                n == neighbors@.len(),
                scores == pointees(neighbors@).map_values(|a: Agent| a.score),
                1 <= k <= n,
                at < k,
                at == best(scores.take(k as int)),
            decreases n - k,
        {
            assert(scores.take(k + 1).drop_last() =~= scores.take(k as int));
            if neighbors[k].score >= neighbors[at].score {
                at = k;
            }
            k += 1;
        }
        assert(scores.take(n as int) =~= scores);
        if neighbors[at].score > self.score {
            neighbors[at].strategy
        } else {
            self.strategy
        }
    }

    /// Imitation: takes over the strategy of the best-scoring neighbour if
    /// that neighbour scores strictly more than this agent. Among equally
    /// scoring neighbours the one supplied last counts.
    pub fn adapt(&mut self, neighbors: Vec<&Agent>)
        ensures
            final(self).strategy == imitate(
                old(self).strategy,
                old(self).score,
                pointees(neighbors@),
            ),
            final(self).coord == old(self).coord,
            final(self).score == old(self).score,
            final(self).history == old(self).history,
    {
        self.strategy = self.imitated(&neighbors);
    }

    /// The action this agent decides on toward `agent`, from what it has
    /// seen of `agent` so far.
    pub fn get_action(&self, agent: &Agent) -> (action: Action)
        ensures
            self.strategy != Strategy::Random ==> action == self.strategy.choice(
                self.history.past(agent.coord),
                Action::Coop,
            ),
    {
        match self.history.get(&agent.coord) {
            Some(seen) => self.strategy.get_action(seen),
            None => {
                let empty: Vec<Action> = Vec::new();
                self.strategy.get_action(&empty)
            },
        }
    }

    /// The actions this agent decides on toward each of `agents` in turn.
    pub fn get_actions(&self, agents: &Vec<&Agent>) -> (actions: Vec<Action>)
        ensures
            actions@.len() == agents@.len(),
            forall|k: int|
                0 <= k < actions@.len() ==> #[trigger] actions@[k] == self.strategy.choice(
                    self.history.past(agents@[k].coord),
                    actions@[k],
                ),
    {
        let mut actions: Vec<Action> = Vec::new();
        let mut k: usize = 0;
        while k < agents.len()
            invariant
                k <= agents@.len(),
                actions@.len() == k,
                forall|t: int|
                    0 <= t < k ==> #[trigger] actions@[t] == self.strategy.choice(
                        self.history.past(agents@[t].coord),
                        actions@[t],
                    ),
            decreases agents@.len() - k,
        {
            let action = self.get_action(agents[k]);
            actions.push(action);
            k += 1;
        }
        actions
    }

    /// Books one encounter with the opponent at `coord`: `other_action` is
    /// appended to what was seen from it, and `payoff` is added to the score.
    pub fn record_and_score(&mut self, coord: Coord, other_action: Action, payoff: u64)
        requires
            old(self).score + payoff <= u64::MAX,
        ensures
            final(self).history@ == old(self).history@.insert(
                coord,
                old(self).history.past(coord).push(other_action),
            ),
            final(self).score == old(self).score + payoff,
            final(self).coord == old(self).coord,
            final(self).strategy == old(self).strategy,
    {
        self.history.record(coord, other_action);
        self.score = self.score + payoff;
    }

    /// Books one encounter with `agnet`, as `record_and_score` does for its
    /// coordinate.
    pub fn score(&mut self, agnet: &Agent, other_action: Action, score: u64)
        requires
            old(self).score + score <= u64::MAX,
        ensures
            final(self).history@ == old(self).history@.insert(
                agnet.coord,
                old(self).history.past(agnet.coord).push(other_action),
            ),
            final(self).score == old(self).score + score,
            final(self).coord == old(self).coord,
            final(self).strategy == old(self).strategy,
    {
        self.record_and_score(agnet.coord, other_action, score);
    }

    pub fn new(coord: Coord, strategy: Strategy) -> (agent: Agent)
        ensures
            agent.coord == coord,
            agent.strategy == strategy,
            agent.score == 0,
            agent.history@ == Map::<Coord, Seq<Action>>::empty(),
    {
        Agent { coord, history: History::new(), strategy, score: 0 }
    }

    /// A fresh agent whose strategy is drawn at random from `strategies`.
    pub fn random(coord: Coord, strategies: &Vec<Strategy>) -> (agent: Agent)
        requires
            strategies@.len() > 0,
        ensures
            agent.coord == coord,
            strategies@.contains(agent.strategy),
            agent.score == 0,
            agent.history@ == Map::<Coord, Seq<Action>>::empty(),
    {
        let mut rng = rand::thread_rng();
        let picked = pick_one(&mut rng, strategies.as_slice());
        Agent::new(coord, picked.unwrap())
    }
}

} // verus!
