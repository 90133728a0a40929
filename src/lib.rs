//! Decoding of simulation-snapshot A-files (a big-endian, flag-driven dump
//! of a finite-element / SPH mesh at one time step) and the verified parts
//! of writing them out as legacy unstructured-grid files.
//!
//! - `reader`: big-endian primitive reads over an in-memory stream.
//! - `decode`: the section-by-section decoder producing a `model::AnimModel`.
//! - `topology`: degenerate-element detection (triangles, tetrahedra).
//! - `cells`: the cell table (connectivity rows and type codes).
//! - `parts`: part-id resolution from part boundary tables.
//! - `fields`: tensor expansion and component selection for output.
//! - `numfmt`: integer formatting and the digit rendering of `%.6g`.
//! - `writer`: the buffered binary / ASCII output writer.
//! - `emit`: the integer sections of the output.
use vstd::prelude::*;

pub mod cells;
pub mod decode;
pub mod emit;
pub mod fields;
pub mod model;
pub mod numfmt;
pub mod parts;
pub mod reader;
pub mod topology;
pub mod writer;

verus! {

} // verus!
