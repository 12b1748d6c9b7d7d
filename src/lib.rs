//! A configurable Connect-Four engine and the agents that play it.
//!
//! The board engine in [`game`] owns the grid, the turn order and the
//! win/draw rules. The agents choose columns: a greedy clustering agent
//! ([`agent`]), a depth-limited minimax search with alpha-beta pruning
//! ([`minimax_agent`]), and a tabular Q-learning agent whose value table can
//! be exported and restored ([`rl_agent`]). [`controller`] runs one game
//! between two agents; [`speed`] names the pace of automatic play.

pub mod agent;
mod chance;
pub mod controller;
pub mod game;
pub mod minimax_agent;
pub mod rl_agent;
pub mod speed;
