//! A verified move-recommendation engine for tic-tac-toe, built on
//! Monte Carlo Tree Search.
//!
//! The crate is organised bottom-up: `board` holds the 3x3 grid, `game`
//! adds turn alternation and win/tie classification on top of it, `score`
//! computes the UCT selection score in fixed-point integers, and `mcts`
//! builds the search tree (selection, expansion, simulation and
//! backpropagation) over immutable game values. `laws` states and proves
//! properties that span several operations, and `input` parses the
//! textual move format used by interactive front ends.

pub mod board;
pub mod game;
pub mod input;
pub mod laws;
pub mod mcts;
pub mod score;
