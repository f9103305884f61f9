//! Selection of the sequencing reads that lie near contig ends of a draft
//! assembly: a best-alignment index built from a mapping table, selection by
//! distance to a contig extremity, one-hop expansion through read overlaps,
//! and the text of the records and assignment rows written out.

pub mod compression;
pub mod text;
pub mod mapping;
pub mod select;
pub mod emit;
