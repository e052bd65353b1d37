//! Rendering core for showing geospatial rasters and vector layers in a terminal.

pub mod arith;
pub mod canvas;
pub mod draw;
pub mod error;
pub mod geometry;
pub mod normalize;
pub mod raster;
pub mod session;
pub mod terminal;
pub mod transport;
pub mod vector;
