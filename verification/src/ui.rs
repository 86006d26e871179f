pub mod canvas;
pub mod preview;
pub mod status;
