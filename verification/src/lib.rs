//! Puzzle simulations over plain integer data: a tournament-style
//! grid-matching game (bingo boards raced against a call sequence),
//! submarine movement commands, power-diagnostic bit statistics,
//! vent-line overlap maps, and lanternfish population growth.
pub mod bingo;
pub mod diagnostic;
pub mod fish;
pub mod fish_counts;
pub mod power;
pub mod sub;
pub mod vents;
