//! Control logic of a resonator-bank synthesizer: note bookkeeping, chord
//! detection, tuning schedules and the integer arithmetic behind them.
pub mod arith;
pub mod chord;
pub mod excitation;
pub mod gcd;
pub mod layout;
pub mod tuning;
pub mod voicing;
