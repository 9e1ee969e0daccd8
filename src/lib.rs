//! A Monte Carlo Tree Search engine for two-player, perfect-information,
//! zero-sum games: the contract a board must meet, the game state, the
//! search tree and the search itself, a turn-taking driver, and two boards
//! (tic-tac-toe and connect four).
pub mod player;
pub mod game;
pub mod random;
pub mod fixed;
pub mod tree;
pub mod search;
pub mod coords;
pub mod ttt;
pub mod driver;
pub mod connect4;
