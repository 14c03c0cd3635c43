//! A Mancala (Kalah) board engine with a mover-centric learning key, and the
//! line-oriented text codec used to persist tabular policies.

pub mod codec;
pub mod explore;
pub mod mankalla;
