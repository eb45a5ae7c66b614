//! Sine-wave art: renders a raster image as rows of sine waves whose
//! amplitude follows pixel darkness.
//!
//! The core is a rasterizer that walks any curve given only by an implicit
//! equation, together with the quarter-sine curves it walks and the plotter
//! that places one wave per brightness cell.

pub mod canvas;
pub mod curves;
pub mod plotter;
