//! Conversion of identifier strings between naming conventions
//! (PascalCase, camelCase, snake_case, SCREAMING_SNAKE_CASE, kebab-case).
//!
//! The library splits an identifier into words under a source convention
//! and joins those words under a target convention's casing and separator
//! rules. Case classification and case mapping are ASCII-based: only the
//! letters `a`..`z` and `A`..`Z` change case or start word boundaries.

pub mod casing;
pub mod convention;
pub mod laws;
pub mod model;
pub mod text;
