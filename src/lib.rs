pub mod canvas;
pub mod grid;
pub mod resolution;
pub mod shade;
