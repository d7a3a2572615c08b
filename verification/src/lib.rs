//! Pen-plotter drawing helpers: pen paths along routes, sampling of grid
//! candidates, grouping by proximity, spiral and tour orderings, and SVG
//! document scaffolding.
pub mod document;
pub mod grouping;
pub mod path;
pub mod sampling;
pub mod spiral;
pub mod tour;
