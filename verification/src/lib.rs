//! A verified core for a rhythm-game chart editor: a tick-indexed chart
//! data model with its invariants, an importer for the legacy line-oriented
//! text format, a reversible-action (undo/redo) engine, and the laser-curve
//! editing state machine.
pub mod action_stack;
pub mod chart;
pub mod codec;
pub mod events;
pub mod ksh;
pub mod tools;
