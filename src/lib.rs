//! Seed-indexed scanning of long nucleotide sequences for sites where short
//! query motifs can form a stable duplex, with chunked, overlap-safe
//! candidate reconstruction and a nearest-neighbour stability model.

pub mod matcher;
pub mod scan;
pub mod seeds;
pub mod thal;

pub use thal::{NNParams, ThalAlignmentType, ThalMode, MAX_LOOP, MIN_LOOP, THAL_MAX_ALIGN, THAL_MAX_SEQ};
