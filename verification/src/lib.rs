//! Rua: turns pictures into terminal character art and keeps multi-frame
//! character sprites in the plain-text `rua` format.

pub mod table;
pub mod text;
pub mod sprite;
pub mod screen;
pub mod rua;
pub mod raster;
pub mod render;
