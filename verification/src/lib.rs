pub mod consts;
pub mod util;
pub mod text;
pub mod parse;
pub mod fruit;
pub mod troll;
pub mod grid;
pub mod board;
pub mod census;
pub mod inventory;
pub mod tactics;
pub mod behaviour;
pub mod planning;
pub mod strategy;
pub mod astar;
pub mod input;
pub mod mapread;
pub mod round;
pub mod guard;
pub mod laws;
pub mod duties;
