//! A persistent, turn-based tic-tac-toe match.
//!
//! The durable representation of a match is a compact snapshot: a nine-cell
//! board, cumulative scores, and turn metadata.  The live game engine from
//! `open_ttt_lib` is move-sequence driven, so on every load the snapshot is
//! replayed into a fresh engine instance in a deterministically inferred
//! alternation order.  This crate verifies that replay, the score and turn
//! state machine across consecutive games, and the codec for the durable
//! snapshot.

pub mod codec;
pub mod digits;
pub mod engine;
pub mod game;
pub mod opening;
pub mod replay;
pub mod report;
