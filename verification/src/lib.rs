//! A library for running a no-limit, pot-capped community-card betting game
//! to completion: the rules state machine that deals cards, runs the four
//! betting rounds, tracks per-player contributions, resolves showdowns with
//! side-pots, evolves the dealer rotation and escalating ante, and renders
//! the wire-format snapshots and action messages.

pub mod actions;
pub mod bet_stage;
pub mod cards;
pub mod config;
pub mod player;
pub mod strings;
pub mod table;
pub mod table_action;
pub mod timer;
