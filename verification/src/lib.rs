//! The parts of a toolkit for plotter drawings that work on whole numbers,
//! bytes and text, each with a contract that is proved of it.
//!
//! - [`grid`]: a rectangular grid of cells.
//! - [`wfc`]: a tile solver in the manner of Wave Function Collapse, which
//!   finds a tiling of a grid whenever there is one.
//! - [`quadtree`]: a spatial index that finds what lies in a box.
//! - [`double`]: the order of doubles, told from their bits.
//! - [`rpc`]: the byte stream from a sketch to its viewer, written and read.
//! - [`parms`]: the parameters of a sketch, read from the command line and
//!   described to the viewer.
//! - [`schema`] and [`viewer`]: the parameters as the viewer keeps them, and
//!   what it makes of the output of a sketch.
//! - [`roundtrip`]: what a sketch declares, the viewer reads back.
//! - [`sketch`]: the names of the files that the drawings are saved under.
//! - [`vpype`]: the command line of the tool that reworks a saved drawing.
//! - [`random`]: the draws from a pseudo-random generator.

pub mod double;
pub mod grid;
pub mod parms;
pub mod quadtree;
pub mod random;
pub mod roundtrip;
pub mod rpc;
pub mod schema;
pub mod sketch;
pub mod viewer;
pub mod vpype;
pub mod wfc;
