//! A verified interpreter for SGF records of Go games, with the board-state
//! bookkeeping that a small e-ink Go client needs: replaying a record onto a
//! grid, flood-fill liberty analysis that removes dead stones after every
//! move, canonical ordering of the surviving stones, and the small decision
//! and protocol helpers around a GTP engine process.

pub mod analysis;
pub mod engine;
pub mod events;
pub mod game_parse;
pub mod grid;
pub mod layout;
pub mod machine;
pub mod normalize;
pub mod sgf;
