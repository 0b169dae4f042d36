//! Verified core of a PDF annotation toolkit.
//!
//! The library models a PDF document as an object table (a mapping from
//! object identifiers to objects) together with an ordered list of page
//! identifiers.  On that model it implements and verifies the logic of
//! three operations on page annotations: counting them by subtype,
//! merging them from secondary documents into a primary one, and
//! stripping selected subtypes from a document.  Loading and saving PDF
//! files, argument parsing and table rendering are left to an unverified
//! front end that converts between the on-disk form and this model.

pub mod objects;
pub mod annots;
pub mod stats;
pub mod strip;
pub mod merge;
pub mod cli;
