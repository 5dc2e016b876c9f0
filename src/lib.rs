pub mod axis;
pub mod game;
pub mod geometry;
pub mod kinds;
pub mod placement;
pub mod query;
pub mod sort;
pub mod tick;
pub mod wide;
