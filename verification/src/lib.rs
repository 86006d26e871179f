pub mod font;
pub mod grid;
pub mod text;
pub mod names;
pub mod ui;
pub mod app;
pub mod ttx;
pub mod keys;
