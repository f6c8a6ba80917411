use vstd::prelude::*;

verus! {

/// Whether the viewer follows the newest snapshot or has let go of it.
#[derive(Clone, Copy, Eq, PartialEq, Debug, Structural)]
pub enum UiState {
    Latest,
    Detach,
}

/// The keys that playback listens to.
#[derive(Clone, Copy, Eq, PartialEq, Debug, Structural)]
pub enum Key {
    Quit,
    Left,
    Right,
    Esc,
    Home,
    End,
    Other,
}

/// Where the viewer stands in the recorded snapshots.
#[derive(Clone, Copy, Eq, PartialEq, Debug, Structural)]
pub struct Playback {
    pub state: UiState,
    /// The snapshot looked at while detached.
    pub detach_step: usize,
}

impl Playback {
    /// The snapshot to show when `recorded` snapshots exist: the newest
    /// while following, the chosen one while detached.
    pub open spec fn shown(self, recorded: usize) -> int {
        match self.state {
            UiState::Latest => if recorded > 0 {
                recorded - 1
            } else {
                0
            },
            UiState::Detach => self.detach_step as int,
        }
    }

    /// Where the viewer stands after `key`, pressed when `recorded`
    /// snapshots exist.
    pub open spec fn after(self, key: Key, recorded: usize) -> Playback {
        match key {
            Key::Left => match self.state {
                UiState::Latest => Playback { state: UiState::Detach, detach_step: recorded },
                UiState::Detach => Playback {
                    state: UiState::Detach,
                    detach_step: if self.detach_step > 0 {
                        (self.detach_step - 1) as usize
                    } else {
                        0
                    },
                },
            },
            Key::Right => match self.state {
                UiState::Latest => self,
                UiState::Detach => Playback {
                    state: UiState::Detach,
                    detach_step: if self.detach_step < recorded {
                        (self.detach_step + 1) as usize
                    } else {
                        recorded
                    },
                },
            },
            Key::Esc => Playback { state: UiState::Latest, detach_step: self.detach_step },
            Key::Home => Playback { state: UiState::Detach, detach_step: 0 },
            Key::End => Playback {
                state: UiState::Detach,
                detach_step: if recorded > 0 {
                    (recorded - 1) as usize
                } else {
                    0
                },
            },
            Key::Quit | Key::Other => self,
        }
    }

    /// The chosen snapshot is one that exists once the next one has been
    /// recorded.
    pub open spec fn within(self, recorded: usize) -> bool {
        self.detach_step <= recorded
    }

    /// Playback starts by following the newest snapshot.
    pub fn new() -> (playback: Playback)
        ensures
            playback == (Playback { state: UiState::Latest, detach_step: 0 }),
    {
        Playback { state: UiState::Latest, detach_step: 0 }
    }

    /// The snapshot to show when `recorded` snapshots exist.
    pub fn step(&self, recorded: usize) -> (step: usize)
        ensures
            step == self.shown(recorded),
    {
        match self.state {
            UiState::Latest => if recorded > 0 {
                recorded - 1
            } else {
                0
            },
            UiState::Detach => self.detach_step,
        }
    }

    /// Takes in `key`, pressed when `recorded` snapshots exist, and says
    /// whether the viewer asked to leave.
    pub fn press(&mut self, key: Key, recorded: usize) -> (quit: bool)
        ensures
            *final(self) == old(self).after(key, recorded),
            quit == (key == Key::Quit),
    {
        match key {
            Key::Quit => {
                return true;
            },
            Key::Left => match self.state {
                UiState::Latest => {
                    self.state = UiState::Detach;
                    self.detach_step = recorded;
                },
                UiState::Detach => {
                    if self.detach_step > 0 {
                        self.detach_step = self.detach_step - 1;
                    }
                },
            },
            Key::Right => match self.state {
                UiState::Detach => {
                    if self.detach_step < recorded {
                        self.detach_step = self.detach_step + 1;
                    } else {
                        self.detach_step = recorded;
                    }
                },
                UiState::Latest => {},
            },
            Key::Esc => {
                self.state = UiState::Latest;
            },
            Key::Home => {
                self.state = UiState::Detach;
                self.detach_step = 0;
            },
            Key::End => {
                self.state = UiState::Detach;
                self.detach_step = if recorded > 0 {
                    recorded - 1
                } else {
                    0
                };
            },
            Key::Other => {},
        }
        false
    }
}

/// Playback never points past the recorded snapshots: whatever key is
/// pressed, the snapshot shown after the next one has been recorded is one
/// that exists.
pub proof fn lemma_playback_stays_within(playback: Playback, key: Key, recorded: usize)
    requires
        playback.within(recorded),
        recorded < usize::MAX,
    ensures
        playback.after(key, recorded).within(recorded),
        playback.after(key, recorded).within((recorded + 1) as usize),
        0 <= playback.after(key, recorded).shown((recorded + 1) as usize) < recorded + 1,
{
}

} // verus!
