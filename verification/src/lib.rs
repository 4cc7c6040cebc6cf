//! A chess position core: a 64-square board model, the textual
//! position-descriptor codec (parse and canonical serialize), pseudo-legal
//! move generation per piece kind, and an apply/revert state machine that
//! keeps a one-level undo snapshot.

pub mod fen;
pub mod moves;
pub mod piece;
pub mod laws;
pub mod position;
pub mod square;
pub mod text;
