//! A small text-adventure engine: a fixed set of rooms, an inventory of keys
//! and coin stacks, and a line-oriented save format. The state machine, the
//! inventory arithmetic and the save codec are verified; console and file
//! handling live outside the library.

pub mod codec;
pub mod game;
pub mod inventory;
pub mod text;

pub use game::GameState;
pub use game::Outcome;
pub use game::SaveChoice;
pub use inventory::Item;
