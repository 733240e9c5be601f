//! Verified core of the arena viewer: tiles, the world grid and its safe-zone
//! stamping, config validation, scoreboard and end-screen bookkeeping, and the
//! scripted control policies that drive agent 0.
pub mod config;
pub mod control;
pub mod grid;
pub mod hud;
pub mod items;
pub mod paths;
pub mod ranking;
pub mod scoreboard;
pub mod teams;
pub mod tile;
