pub mod agent;
pub mod env;
pub mod playback;
mod random;
pub mod rules;
pub mod topology;

pub use agent::{Action, Agent, Coord, History, Noise, Strategy};
pub use env::{ConfigError, Environment, Metric};
