//! Logic of the Sigma Info site, verified with Verus: informational documents
//! (lookup by slug, index order, built-in pages, front-matter fields), the
//! SIGMA-RACER build-spec tabs (which files, ids, labels, tab order), and the
//! configuration values derived from the environment's settings.

pub mod text;
pub mod order;
pub mod number;
pub mod content;
pub mod config;
pub mod specs;
