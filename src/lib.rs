//! Citation statistics for a document tree: a bibliography grammar, a
//! citation scanner, and the tally of citations per author and title.

pub mod error;
pub mod text;
pub mod cites;
pub mod bib;
pub mod laws;
pub mod stats;
