//! An in-memory reference-data index for a tabletop-investigation aid.
//!
//! Two independent index components: [`clues::Clues`], which owns clue
//! records and answers reverse lookups by person and by location, and
//! [`locations::Locations`], which owns location records and answers
//! parent/child relationship queries over a derived child graph.
//!
//! File loading and deserialization are external collaborators: the
//! indexes take fully materialized record sequences as input.

pub mod clues;
pub mod idseq;
pub mod locations;
