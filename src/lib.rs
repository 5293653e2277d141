//! Small verified puzzle solvers, centred on an instruction-set interpreter
//! with loop detection and a single-swap repair search.
//!
//! - `machine`: programs of `acc`/`jmp`/`nop` instructions, a machine that
//!   steps through them until it exits or loops, and the repair search.
//! - `text`: splitting, trimming and number reading on characters.
//! - `expenses`, `passwords`, `slopes`, `passport`, `seat`, `answers`,
//!   `bags`, `calibration`: the smaller puzzles, each parsing its input and
//!   computing its answers.
pub mod answers;
pub mod bags;
pub mod calibration;
pub mod expenses;
pub mod machine;
pub mod passport;
pub mod passwords;
pub mod seat;
pub mod slopes;
pub mod text;
