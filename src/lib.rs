pub mod cell;
pub mod grid;
pub mod model;
pub mod map;
pub mod screen;
pub mod state;
