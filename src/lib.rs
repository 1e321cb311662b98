//! Per-window nucleotide composition over DNA sequences: CG content and
//! CpG dinucleotide frequency over fixed-size, non-overlapping windows.
pub mod count;
pub mod score;
pub mod window;
