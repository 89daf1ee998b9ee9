//! Structural-quality analysis of protein models from the statistics of
//! local contacts between atoms.
//!
//! The library holds the discrete part of the analysis, each function
//! with its contract:
//!
//! - `pdb` and `cif` cut a structure file into atom records, `ingest`
//!   decides which of them are retained and numbers their residues;
//! - `grid` files the atoms under the cells of a uniform grid and answers
//!   neighbour queries;
//! - `window` finds the scan windows, `contact` the pairs of atoms that
//!   each window counts;
//! - `tally` gathers the outcomes of the windows into the error profile
//!   and the figures for the whole structure;
//! - `report` and `pdf` lay the report out.
//!
//! Positions, distances and error values are real numbers and are not
//! computed here: an atom enters by the grid cell that holds it, and an
//! error value by the band in which it lies.

pub mod atom;
pub mod cif;
pub mod contact;
pub mod fault;
pub mod fields;
pub mod format;
pub mod grid;
pub mod ingest;
pub mod pdb;
pub mod pdf;
pub mod report;
pub mod tally;
pub mod text;
pub mod window;
