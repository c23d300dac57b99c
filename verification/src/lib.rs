//! A greedy solver that drives robots over a room on a grid until every open
//! cell within reach is painted.
//!
//! The room is a polygon with obstacles in it. `parse` reads its description,
//! `frame` moves it to the origin and `raster` makes the board of it: a grid
//! of `cell`s held by a `board`. A `state` holds the board and the robots.
//! `visibility` tells which cells a robot sees, `motion` moves a robot and
//! paints what it sees, and `pickup` collects boosters. `region` finds the
//! islands that are left unpainted and `search` the nearest cell that a robot
//! wants; `target` says what robots want. `rules` and `steps` hold the single
//! things a robot does, `turns` what it does in one turn under each rule, and
//! `solve` lets the robots act turn by turn. `plain` says what a run without
//! boosters looks like and `single` that a robot's turn has one outcome.
//! `encode` writes the commands down and `decode` reads them back. `laws`,
//! `codec` and `outline` hold what is proved of all this. `puzzle` makes
//! rooms, and `store` tells which solution of a task is worth keeping.

pub mod board;
pub mod cell;
pub mod chance;
pub mod codec;
pub mod command;
pub mod decode;
pub mod encode;
pub mod frame;
pub mod laws;
pub mod motion;
pub mod outline;
pub mod parse;
pub mod pickup;
pub mod plain;
pub mod puzzle;
pub mod raster;
pub mod ratio;
pub mod region;
pub mod rules;
pub mod search;
pub mod setup;
pub mod single;
pub mod solve;
pub mod sorted;
pub mod state;
pub mod steps;
pub mod store;
pub mod target;
pub mod turns;
pub mod visibility;
