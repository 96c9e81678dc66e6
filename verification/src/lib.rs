//! Deterministic single-tape Turing machine simulator.
//!
//! The crate is built from four verified pieces: a radix trie over strings
//! (`patricia`), a greedy longest-match tokenizer that splits a raw input
//! string into tape symbols (`tokenizer`), a state/transition graph keyed by
//! the symbol read (`state`, `builder`), and an execution engine that steps
//! the machine over a growable tape while recording a snapshot trace
//! (`turing_machine`, `config`).

pub mod builder;
pub mod config;
pub mod patricia;
pub mod state;
pub mod tokenizer;
pub mod turing_machine;
mod util;

pub use builder::{BuilderError, TuringMachineBuilder};
pub use config::{turing_machine_from_config, Config, ConfigError, ConfigTransition};
pub use patricia::{PatriciaError, PatriciaNode};
pub use state::{Direction, State, Stuck, Transition};
pub use tokenizer::{string_to_tape, InvalidSymbol};
pub use turing_machine::{Snapshot, Status, TuringMachine};
